use std::cell::{Cell, RefCell};
use std::rc::Rc;

use clayknot::{
    Graph, GraphError, Input, InputOf, NodeFunction, Output, OutputOf, Port, TypeTag, Value,
};

enum Op {
    Constant(u32),
    Shared(Rc<Cell<u32>>),
    PlusOne,
    Sum,
    Counter,
    DropOutputs,
    RetypeOutput,
    Flag,
    Logged(&'static str, Rc<RefCell<Vec<&'static str>>>),
}

impl NodeFunction for Op {
    fn run(&self, inputs: &Vec<Option<Value>>, outputs: &mut Vec<OutputOf>) {
        match self {
            Op::Constant(c) => {
                outputs[0].set(Value::U32(*c)).unwrap();
            }
            Op::Shared(c) => {
                outputs[0].set(Value::U32(c.get())).unwrap();
            }
            Op::PlusOne => {
                let x = inputs[0].unwrap().as_u32().unwrap();
                outputs[0].set(Value::U32(x + 1)).unwrap();
            }
            Op::Sum => {
                let total: u32 = inputs.iter().map(|v| v.unwrap().as_u32().unwrap()).sum();
                outputs[0].set(Value::U32(total)).unwrap();
            }
            Op::Counter => {
                let now = match outputs[0].get() {
                    Some(v) => v.as_u32().unwrap(),
                    None => 0,
                };
                outputs[0].set(Value::U32(now + 1)).unwrap();
            }
            Op::DropOutputs => {
                outputs.clear();
            }
            Op::RetypeOutput => {
                outputs[0] = OutputOf::new("other", TypeTag::Bool);
            }
            Op::Flag => {
                outputs[0].set(Value::Bool(true)).unwrap();
            }
            Op::Logged(name, log) => {
                log.borrow_mut().push(name);
                outputs[0].set(Value::U32(inputs.len() as u32)).unwrap();
            }
        }
    }
}

fn takes_input<T: Input>(_: &T) {}

fn u32_out(name: &str) -> OutputOf {
    OutputOf::new(name, TypeTag::U32)
}

fn u32_in(name: &str) -> InputOf {
    InputOf::new(name, TypeTag::U32)
}

#[test]
fn scenario_source_then_chain_and_reupdate() {
    let a_value = Rc::new(Cell::new(42u32));
    let mut g = Graph::new();
    let (_, _, a_out) = g.add_node(vec![], vec![u32_out("Result")], Op::Shared(a_value.clone()));
    let result = a_out[0];
    assert!(g.get_output_value(&result).is_none());

    let (_, b_in, b_out) = g.add_node(vec![u32_in("In")], vec![u32_out("Out")], Op::PlusOne);
    g.connect(&b_in[0], &result).unwrap();

    g.update().unwrap();
    assert_eq!(g.get_output_value(&result), Some(Value::U32(42)));
    assert_eq!(g.get_input_value(&b_in[0]), Some(Value::U32(42)));
    assert_eq!(g.get_output_value(&b_out[0]), Some(Value::U32(43)));

    a_value.set(1);
    g.update().unwrap();
    assert_eq!(g.get_output_value(&b_out[0]), Some(Value::U32(2)));
}

#[test]
fn chain_added_consumer_first_runs_in_dependency_order() {
    let mut g = Graph::new();
    let (_, d_in, d_out) = g.add_node(vec![u32_in("d")], vec![u32_out("d")], Op::PlusOne);
    let (_, c_in, c_out) = g.add_node(vec![u32_in("c")], vec![u32_out("c")], Op::PlusOne);
    let (_, b_in, b_out) = g.add_node(vec![u32_in("b")], vec![u32_out("b")], Op::PlusOne);
    let (_, _, a_out) = g.add_node(vec![], vec![u32_out("a")], Op::Constant(10));
    g.connect(&b_in[0], &a_out[0]).unwrap();
    g.connect(&c_in[0], &b_out[0]).unwrap();
    g.connect(&d_in[0], &c_out[0]).unwrap();

    g.update().unwrap();
    assert_eq!(g.get_output_value(&b_out[0]), Some(Value::U32(11)));
    assert_eq!(g.get_output_value(&c_out[0]), Some(Value::U32(12)));
    assert_eq!(g.get_output_value(&d_out[0]), Some(Value::U32(13)));
}

#[test]
fn fan_out_readers_see_same_value_and_timestamp() {
    let mut g = Graph::new();
    let (_, _, a_out) = g.add_node(vec![], vec![u32_out("a")], Op::Constant(7));
    let (_, b_in, _) = g.add_node(vec![u32_in("b")], vec![u32_out("b")], Op::PlusOne);
    let (_, c_in, _) = g.add_node(vec![u32_in("c")], vec![u32_out("c")], Op::PlusOne);
    g.connect(&b_in[0], &a_out[0]).unwrap();
    g.connect(&c_in[0], &a_out[0]).unwrap();
    g.update().unwrap();

    assert_eq!(g.get_input_value(&b_in[0]), Some(Value::U32(7)));
    assert_eq!(g.get_input_value(&b_in[0]), g.get_input_value(&c_in[0]));
    let b_src = g.get_input_source(&b_in[0]).unwrap();
    let c_src = g.get_input_source(&c_in[0]).unwrap();
    assert_eq!(b_src, a_out[0]);
    assert_eq!(c_src, a_out[0]);
    let b_stamp = g.get_output_port(&b_src).unwrap().timestamp();
    let c_stamp = g.get_output_port(&c_src).unwrap().timestamp();
    assert_eq!(b_stamp, 1);
    assert_eq!(b_stamp, c_stamp);
}

#[test]
fn fresh_output_is_absent_then_set_by_update() {
    let mut g = Graph::new();
    let (_, _, outs) = g.add_node(vec![], vec![u32_out("x")], Op::Constant(5));
    assert_eq!(g.get_output_value(&outs[0]), None);
    assert_eq!(g.get_output_port(&outs[0]).unwrap().timestamp(), 0);
    g.update().unwrap();
    assert_eq!(g.get_output_value(&outs[0]), Some(Value::U32(5)));
    assert_eq!(g.get_output_port(&outs[0]).unwrap().timestamp(), 1);
}

#[test]
fn connect_type_mismatch_leaves_connection_unchanged() {
    let mut g = Graph::new();
    let (_, _, u_out) = g.add_node(vec![], vec![u32_out("u")], Op::Constant(3));
    let (_, _, f_out) = g.add_node(vec![], vec![OutputOf::new("f", TypeTag::Bool)], Op::Flag);
    let (_, b_in, _) = g.add_node(vec![u32_in("b")], vec![u32_out("b")], Op::PlusOne);

    assert_eq!(g.connect(&b_in[0], &f_out[0]), Err(GraphError::TypeMismatch));
    assert_eq!(g.get_input_source(&b_in[0]), None);

    g.connect(&b_in[0], &u_out[0]).unwrap();
    assert_eq!(g.connect(&b_in[0], &f_out[0]), Err(GraphError::TypeMismatch));
    assert_eq!(g.get_input_source(&b_in[0]), Some(u_out[0]));
}

#[test]
fn connect_unknown_port_fails() {
    let mut big = Graph::new();
    let (_, big_in, _) = big.add_node(
        vec![u32_in("p"), u32_in("q"), u32_in("r")],
        vec![u32_out("p"), u32_out("q"), u32_out("r")],
        Op::Sum,
    );
    let mut g = Graph::new();
    let (_, g_in, g_out) = g.add_node(vec![u32_in("x")], vec![u32_out("x")], Op::PlusOne);
    let (_, _, big_out) = big.add_node(vec![], vec![u32_out("s")], Op::Constant(1));
    assert_eq!(g.connect(&big_in[2], &g_out[0]), Err(GraphError::UnknownPort));
    assert_eq!(g.connect(&g_in[0], &big_out[0]), Err(GraphError::UnknownPort));
    assert_eq!(g.get_input_source(&g_in[0]), None);
}

#[test]
fn connecting_again_replaces_the_source() {
    let mut g = Graph::new();
    let (_, _, one) = g.add_node(vec![], vec![u32_out("one")], Op::Constant(1));
    let (_, _, two) = g.add_node(vec![], vec![u32_out("two")], Op::Constant(2));
    let (_, b_in, b_out) = g.add_node(vec![u32_in("b")], vec![u32_out("b")], Op::PlusOne);
    g.connect(&b_in[0], &one[0]).unwrap();
    g.connect(&b_in[0], &two[0]).unwrap();
    g.update().unwrap();
    assert_eq!(g.get_output_value(&b_out[0]), Some(Value::U32(3)));
}

#[test]
fn cycle_is_reported_and_no_node_runs() {
    let mut g = Graph::new();
    let (_, _, s_out) = g.add_node(vec![], vec![u32_out("s")], Op::Constant(1));
    let (_, x_in, x_out) = g.add_node(vec![u32_in("x1"), u32_in("x2")], vec![u32_out("x")], Op::Sum);
    let (_, y_in, y_out) = g.add_node(vec![u32_in("y")], vec![u32_out("y")], Op::PlusOne);
    g.connect(&x_in[0], &s_out[0]).unwrap();
    g.connect(&x_in[1], &y_out[0]).unwrap();
    g.connect(&y_in[0], &x_out[0]).unwrap();

    assert_eq!(g.update(), Err(GraphError::GraphHasCycle));
    assert_eq!(g.get_output_value(&s_out[0]), None);
    assert_eq!(g.get_output_value(&x_out[0]), None);
    assert_eq!(g.get_output_value(&y_out[0]), None);
}

#[test]
fn self_loop_is_a_cycle() {
    let mut g = Graph::new();
    let (_, x_in, x_out) = g.add_node(vec![u32_in("x")], vec![u32_out("x")], Op::PlusOne);
    g.connect(&x_in[0], &x_out[0]).unwrap();
    assert_eq!(g.update(), Err(GraphError::GraphHasCycle));
}

#[test]
fn unresolved_input_stops_update_and_keeps_earlier_results() {
    let mut g = Graph::new();
    let (_, _, a_out) = g.add_node(vec![], vec![u32_out("a")], Op::Constant(9));
    let (b, b_in, b_out) = g.add_node(vec![u32_in("b")], vec![u32_out("b")], Op::PlusOne);
    assert_eq!(g.update(), Err(GraphError::UnresolvedInput(b, b_in[0])));
    assert_eq!(g.get_output_value(&a_out[0]), Some(Value::U32(9)));
    assert_eq!(g.get_output_value(&b_out[0]), None);
}

#[test]
fn run_node_on_stateless_node_repeats_its_output() {
    let mut g = Graph::new();
    let (a, _, a_out) = g.add_node(vec![], vec![u32_out("a")], Op::Constant(4));
    let (b, b_in, b_out) = g.add_node(vec![u32_in("b")], vec![u32_out("b")], Op::PlusOne);
    g.connect(&b_in[0], &a_out[0]).unwrap();
    g.run_node(&a).unwrap();
    g.run_node(&b).unwrap();
    let first = g.get_output_value(&b_out[0]);
    g.run_node(&b).unwrap();
    assert_eq!(first, Some(Value::U32(5)));
    assert_eq!(g.get_output_value(&b_out[0]), first);
}

#[test]
fn run_node_on_counter_keeps_state_between_calls() {
    let mut g = Graph::new();
    let (n, _, outs) = g.add_node(vec![], vec![u32_out("count")], Op::Counter);
    g.run_node(&n).unwrap();
    assert_eq!(g.get_output_value(&outs[0]), Some(Value::U32(1)));
    g.run_node(&n).unwrap();
    assert_eq!(g.get_output_value(&outs[0]), Some(Value::U32(2)));
    g.update().unwrap();
    assert_eq!(g.get_output_value(&outs[0]), Some(Value::U32(3)));
}

#[test]
fn run_node_does_not_touch_other_nodes() {
    let mut g = Graph::new();
    let (a, _, a_out) = g.add_node(vec![], vec![u32_out("a")], Op::Counter);
    let (b, b_in, b_out) = g.add_node(vec![u32_in("b")], vec![u32_out("b")], Op::PlusOne);
    g.connect(&b_in[0], &a_out[0]).unwrap();
    g.run_node(&a).unwrap();
    g.run_node(&b).unwrap();
    assert_eq!(g.get_output_value(&a_out[0]), Some(Value::U32(1)));
    assert_eq!(g.get_output_port(&a_out[0]).unwrap().timestamp(), 1);
    assert_eq!(g.get_output_value(&b_out[0]), Some(Value::U32(2)));
}

#[test]
fn run_node_unknown_id_and_unresolved_input() {
    let mut big = Graph::new();
    big.add_node(vec![], vec![u32_out("p")], Op::Constant(1));
    big.add_node(vec![], vec![u32_out("r")], Op::Constant(1));
    let (far, _, _) = big.add_node(vec![], vec![u32_out("q")], Op::Constant(1));
    let mut g = Graph::new();
    let (_, _, s_out) = g.add_node(vec![], vec![u32_out("s")], Op::Constant(1));
    let (n, n_in, outs) = g.add_node(vec![u32_in("x"), u32_in("y")], vec![u32_out("x")], Op::Sum);
    assert_eq!(g.run_node(&far), Err(GraphError::UnknownNodeId));
    assert_eq!(g.run_node(&n), Err(GraphError::UnresolvedInput(n, n_in[0])));
    g.connect(&n_in[0], &s_out[0]).unwrap();
    assert_eq!(g.run_node(&n), Err(GraphError::UnresolvedInput(n, n_in[1])));
    assert_eq!(g.get_output_value(&outs[0]), None);
}

#[test]
fn function_that_alters_its_ports_is_refused() {
    let mut g = Graph::new();
    let (d, _, d_out) = g.add_node(vec![], vec![u32_out("d")], Op::DropOutputs);
    assert_eq!(g.run_node(&d), Err(GraphError::TypeMismatch));
    let (r, _, _) = g.add_node(vec![], vec![u32_out("r")], Op::RetypeOutput);
    assert_eq!(g.run_node(&r), Err(GraphError::TypeMismatch));
    assert_eq!(g.update(), Err(GraphError::TypeMismatch));
    assert_eq!(g.get_output_port(&d_out[0]).unwrap().type_tag(), TypeTag::U32);
}

#[test]
fn output_set_checks_type_and_advances_timestamp() {
    let mut p = OutputOf::new("p", TypeTag::U32);
    assert_eq!(p.get(), None);
    assert_eq!(p.value_any(), None);
    assert_eq!(p.set(Value::Bool(true)), Err(GraphError::TypeMismatch));
    assert_eq!(p.get(), None);
    assert_eq!(p.timestamp(), 0);
    assert_eq!(p.set(Value::U32(8)), Ok(()));
    assert_eq!(p.get(), Some(&Value::U32(8)));
    assert_eq!(p.timestamp(), 1);
    assert_eq!(p.set(Value::U32(9)), Ok(()));
    assert_eq!(p.value_any(), Some(Value::U32(9)));
    assert_eq!(p.timestamp(), 2);
    assert_eq!(p.type_tag(), TypeTag::U32);
    assert_eq!(p.name(), "p");
}

#[test]
fn input_port_exposes_tag_and_timestamp() {
    let i = InputOf::new("in", TypeTag::I64);
    assert_eq!(i.type_tag(), TypeTag::I64);
    assert_eq!(i.timestamp(), 0);
    assert_eq!(i.name(), "in");
    takes_input(&i);
}

#[test]
fn checked_value_reads() {
    assert_eq!(Value::U32(3).as_u32(), Ok(3));
    assert_eq!(Value::U32(3).as_u64(), Err(GraphError::TypeMismatch));
    assert_eq!(Value::U64(4).as_u64(), Ok(4));
    assert_eq!(Value::I64(-5).as_i64(), Ok(-5));
    assert_eq!(Value::I64(-5).as_bool(), Err(GraphError::TypeMismatch));
    assert_eq!(Value::Bool(true).as_bool(), Ok(true));
    assert_eq!(Value::Bool(true).as_u32(), Err(GraphError::TypeMismatch));
    assert_eq!(Value::I64(1).type_tag(), TypeTag::I64);
}

#[test]
fn input_port_of_graph_is_reported() {
    let mut g: Graph<Op> = Graph::new();
    let (_, ins, _) = g.add_node(vec![InputOf::new("in", TypeTag::U64)], vec![], Op::Sum);
    assert_eq!(g.get_input_port(&ins[0]).unwrap().type_tag(), TypeTag::U64);
    assert_eq!(g.get_input_value(&ins[0]), None);
}

#[test]
fn sources_run_first_and_producers_before_consumers() {
    let log = Rc::new(RefCell::new(Vec::new()));
    let mut g = Graph::new();
    let (_, c_in, _) = g.add_node(vec![u32_in("c")], vec![u32_out("c")], Op::Logged("c", log.clone()));
    let (_, b_in, b_out) = g.add_node(vec![u32_in("b")], vec![u32_out("b")], Op::Logged("b", log.clone()));
    let (_, _, a_out) = g.add_node(vec![], vec![u32_out("a")], Op::Logged("a", log.clone()));
    let (_, _, _) = g.add_node(vec![], vec![u32_out("d")], Op::Logged("d", log.clone()));
    g.connect(&c_in[0], &b_out[0]).unwrap();
    g.connect(&b_in[0], &a_out[0]).unwrap();
    g.update().unwrap();

    let order = log.borrow().clone();
    assert_eq!(order.len(), 4);
    let at = |name: &str| order.iter().position(|n| *n == name).unwrap();
    assert!(at("a") < 2 && at("d") < 2);
    assert!(at("a") < at("b"));
    assert!(at("b") < at("c"));
}

#[test]
fn connect_advances_input_timestamp_only_on_success() {
    let mut g = Graph::new();
    let (_, _, u_out) = g.add_node(vec![], vec![u32_out("u")], Op::Constant(3));
    let (_, _, f_out) = g.add_node(vec![], vec![OutputOf::new("f", TypeTag::Bool)], Op::Flag);
    let (_, b_in, _) = g.add_node(vec![u32_in("b")], vec![u32_out("b")], Op::PlusOne);
    assert_eq!(g.get_input_port(&b_in[0]).unwrap().timestamp(), 0);
    assert_eq!(g.connect(&b_in[0], &f_out[0]), Err(GraphError::TypeMismatch));
    assert_eq!(g.get_input_port(&b_in[0]).unwrap().timestamp(), 0);
    g.connect(&b_in[0], &u_out[0]).unwrap();
    assert_eq!(g.get_input_port(&b_in[0]).unwrap().timestamp(), 1);
    g.connect(&b_in[0], &u_out[0]).unwrap();
    assert_eq!(g.get_input_port(&b_in[0]).unwrap().timestamp(), 2);
}
