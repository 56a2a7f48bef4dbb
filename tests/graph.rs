use audio_mesh::engine::{CallbackMessage, Engine, ProcessFault};
use audio_mesh::mesh::{adj_clone, contains, io_clone, topo_clone, Mesh};
use audio_mesh::nodes::{Constant, Dac, Dummy, Intpipe, Node as Builtin, Pipe, Slope};
use audio_mesh::processor::Processor;
use audio_mesh::signal::{Signal, SignalKind};
use audio_mesh::topology::topological_order;

/// A node of any kind the tests need.
enum Node {
    Constant(Constant),
    Dac(Dac),
    Dummy(Dummy),
    Intpipe(Intpipe),
    Pipe(Pipe),
    Slope(Slope),
    Sum,
    Broken,
}

impl Processor for Node {
    fn process(&mut self, input: &Vec<Signal>) -> Vec<Signal> {
        match self {
            Node::Constant(p) => p.process(input),
            Node::Dac(p) => p.process(input),
            Node::Dummy(p) => p.process(input),
            Node::Intpipe(p) => p.process(input),
            Node::Pipe(p) => p.process(input),
            Node::Slope(p) => p.process(input),
            Node::Sum => match (input[0], input[1]) {
                (Signal::Sound(a), Signal::Sound(b)) => {
                    vec![Signal::Sound((f64::from_bits(a) + f64::from_bits(b)).to_bits())]
                }
                _ => vec![],
            },
            Node::Broken => vec![],
        }
    }

    fn input_types_and_defaults(&self) -> Vec<Signal> {
        match self {
            Node::Constant(p) => p.input_types_and_defaults(),
            Node::Dac(p) => p.input_types_and_defaults(),
            Node::Dummy(p) => p.input_types_and_defaults(),
            Node::Intpipe(p) => p.input_types_and_defaults(),
            Node::Pipe(p) => p.input_types_and_defaults(),
            Node::Slope(p) => p.input_types_and_defaults(),
            Node::Sum => vec![Signal::Sound(0), Signal::Sound(0)],
            Node::Broken => vec![Signal::Sound(0)],
        }
    }

    fn output_types(&self) -> Vec<Signal> {
        match self {
            Node::Constant(p) => p.output_types(),
            Node::Dac(p) => p.output_types(),
            Node::Dummy(p) => p.output_types(),
            Node::Intpipe(p) => p.output_types(),
            Node::Pipe(p) => p.output_types(),
            Node::Slope(p) => p.output_types(),
            Node::Sum => vec![Signal::Sound(0)],
            Node::Broken => vec![Signal::Sound(0)],
        }
    }

    fn kind_name(&self) -> String {
        match self {
            Node::Constant(p) => p.kind_name(),
            Node::Dac(p) => p.kind_name(),
            Node::Dummy(p) => p.kind_name(),
            Node::Intpipe(p) => p.kind_name(),
            Node::Pipe(p) => p.kind_name(),
            Node::Slope(p) => p.kind_name(),
            Node::Sum => String::from("Add"),
            Node::Broken => String::from("Broken"),
        }
    }
}

fn sound(x: f64) -> Signal {
    Signal::Sound(x.to_bits())
}

fn position(order: &[usize], node: usize) -> usize {
    order.iter().position(|&n| n == node).unwrap()
}

/// Hands every queued message to the engine, one per tick, as the real-time
/// side drains them; returns the result of the last tick.
fn drain(mesh: &mut Mesh<Node>, engine: &mut Engine<Node>) -> Result<u64, ProcessFault> {
    let mut last = engine.process(None);
    for message in mesh.take_messages() {
        last = engine.process(Some(message));
    }
    last
}

#[test]
fn chain_is_ordered_source_first() {
    let mut mesh: Mesh<Node> = Mesh::new();
    mesh.register_processor(Node::Dac(Dac::new()));
    mesh.register_processor(Node::Pipe(Pipe::new()));
    mesh.register_processor(Node::Constant(Constant::new()));
    assert!(mesh.connect((2, 0), (1, 0)));
    assert!(mesh.connect((1, 0), (0, 0)));
    let order = mesh.topologically_ordered.clone().unwrap();
    assert_eq!(order.len(), 3);
    assert!(position(&order, 2) < position(&order, 1));
    assert!(position(&order, 1) < position(&order, 0));
}

#[test]
fn diamond_respects_every_edge() {
    let adj: Vec<Vec<Vec<(usize, usize)>>> = vec![
        vec![vec![(1, 0), (2, 0)]],
        vec![vec![(3, 0)]],
        vec![vec![(3, 1)]],
        vec![],
    ];
    let order = topological_order(&adj).unwrap();
    assert_eq!(order.len(), 4);
    for (u, row) in adj.iter().enumerate() {
        for plug in row {
            for &(v, _) in plug {
                assert!(position(&order, u) < position(&order, v));
            }
        }
    }
}

#[test]
fn closing_a_cycle_takes_the_order_away() {
    let mut mesh: Mesh<Node> = Mesh::new();
    mesh.register_processor(Node::Pipe(Pipe::new()));
    mesh.register_processor(Node::Pipe(Pipe::new()));
    assert!(mesh.connect((0, 0), (1, 0)));
    assert!(mesh.topologically_ordered.is_some());
    assert!(mesh.connect((1, 0), (0, 0)));
    assert!(mesh.topologically_ordered.is_none());
    // Without the closing edge, the graph orders again.
    let mut adj = adj_clone(&mesh.adjacency_list);
    adj[1][0].pop();
    assert!(topological_order(&adj).is_some());
    // A well-typed edge is still taken while the graph has a cycle.
    assert!(mesh.connect((0, 0), (1, 0)));
    assert_eq!(mesh.adjacency_list[0][0].len(), 2);
    assert!(mesh.topologically_ordered.is_none());
}

#[test]
fn self_loop_is_a_cycle() {
    let adj: Vec<Vec<Vec<(usize, usize)>>> = vec![vec![vec![(0, 0)]]];
    assert!(topological_order(&adj).is_none());
}

#[test]
fn sound_output_does_not_feed_int_input() {
    let mut mesh: Mesh<Builtin> = Mesh::new();
    mesh.register_processor(Builtin::Constant(Constant::new()));
    mesh.register_processor(Builtin::Intpipe(Intpipe::new()));
    let before = mesh.adjacency_list[0][0].len();
    assert!(!mesh.connect((0, 0), (1, 0)));
    assert_eq!(mesh.adjacency_list[0][0].len(), before);
    assert!(mesh.topologically_ordered.is_some());
}

#[test]
fn sound_producer_and_int_consumer_refuse_a_connection() {
    let mut mesh: Mesh<Node> = Mesh::new();
    mesh.new_processor(Node::Pipe(Pipe::new()));
    mesh.new_processor(Node::Intpipe(Intpipe::new()));
    let adjacency = adj_clone(&mesh.adjacency_list);
    let queued = mesh.pending.len();
    assert!(!mesh.new_connection(0, 0, 1, 0));
    assert_eq!(mesh.adjacency_list, adjacency);
    assert_eq!(mesh.pending.len(), queued);
}

#[test]
fn missing_plugs_refuse_a_connection() {
    let mut mesh: Mesh<Node> = Mesh::new();
    mesh.register_processor(Node::Constant(Constant::new()));
    mesh.register_processor(Node::Pipe(Pipe::new()));
    assert!(!mesh.connect((0, 1), (1, 0)));
    assert!(!mesh.connect((0, 0), (1, 1)));
    assert!(!mesh.connect((5, 0), (1, 0)));
    assert!(!mesh.connect((0, 0), (7, 0)));
    assert_eq!(mesh.adjacency_list[0][0].len(), 0);
}

#[test]
fn independent_nodes_are_each_ordered_once() {
    let mut mesh: Mesh<Node> = Mesh::new();
    let n = 6;
    for _ in 0..n {
        mesh.register_processor(Node::Pipe(Pipe::new()));
    }
    let mut order = mesh.topologically_ordered.clone().unwrap();
    order.sort();
    assert_eq!(order, (0..n).collect::<Vec<usize>>());
}

#[test]
fn registration_records_the_declaration() {
    let mut mesh: Mesh<Node> = Mesh::new();
    mesh.register_processor(Node::Slope(Slope::new()));
    mesh.register_processor(Node::Dac(Dac::new()));
    assert_eq!(mesh.processor_types.len(), 2);
    assert_eq!(mesh.processor_types[0].0.len(), 4);
    assert_eq!(mesh.processor_types[0].1.len(), 1);
    assert_eq!(mesh.processor_types[0].2, "Slope");
    assert_eq!(mesh.adjacency_list[0].len(), 1);
    assert_eq!(mesh.adjacency_list[1].len(), 0);
    assert_eq!(mesh.input_buffers[1], vec![Signal::Sound(0)]);
    assert_eq!(mesh.ios, vec![1]);
}

#[test]
fn constants_sum_into_the_sink() {
    let mut mesh: Mesh<Node> = Mesh::new();
    let mut engine: Engine<Node> = Engine::new();
    mesh.new_processor(Node::Constant(Constant::new()));
    mesh.new_processor(Node::Constant(Constant::new()));
    mesh.new_processor(Node::Sum);
    mesh.new_processor(Node::Dac(Dac::new()));
    mesh.set_constant(0, 1.0f64.to_bits());
    mesh.set_constant(1, 2.0f64.to_bits());
    assert!(mesh.new_connection(0, 0, 2, 0));
    assert!(mesh.new_connection(1, 0, 2, 1));
    assert!(mesh.new_connection(2, 0, 3, 0));
    let sample = drain(&mut mesh, &mut engine).unwrap();
    assert_eq!(f64::from_bits(sample), 3.0);
    assert_eq!(engine.input_buffers[3][0], sound(3.0));
    assert_eq!(engine.input_buffers[2], vec![sound(1.0), sound(2.0)]);
}

#[test]
fn last_producer_in_order_wins_a_shared_input() {
    let mut mesh: Mesh<Node> = Mesh::new();
    let mut engine: Engine<Node> = Engine::new();
    mesh.new_processor(Node::Constant(Constant::new()));
    mesh.new_processor(Node::Constant(Constant::new()));
    mesh.new_processor(Node::Dac(Dac::new()));
    mesh.set_constant(0, 5.0f64.to_bits());
    mesh.set_constant(1, 7.0f64.to_bits());
    assert!(mesh.new_connection(0, 0, 2, 0));
    assert!(mesh.new_connection(1, 0, 2, 0));
    let order = mesh.topologically_ordered.clone().unwrap();
    let (first, second) = if position(&order, 0) < position(&order, 1) { (0, 1) } else { (1, 0) };
    let expected = if second == 1 { 7.0 } else { 5.0 };
    assert_ne!(first, second);
    let sample = drain(&mut mesh, &mut engine).unwrap();
    assert_eq!(engine.input_buffers[2][0], sound(expected));
    assert_eq!(f64::from_bits(sample), expected);
}

#[test]
fn snapshot_takes_effect_on_the_tick_that_drains_it() {
    let mut mesh: Mesh<Node> = Mesh::new();
    let mut engine: Engine<Node> = Engine::new();
    mesh.new_processor(Node::Constant(Constant::new()));
    mesh.new_processor(Node::Dac(Dac::new()));
    mesh.set_constant(0, 0.5f64.to_bits());
    for message in mesh.take_messages() {
        assert_eq!(engine.process(Some(message)), Ok(0));
    }
    assert!(mesh.new_connection(0, 0, 1, 0));
    let mut messages = mesh.take_messages();
    assert_eq!(messages.len(), 1);
    // Nothing drained: the old graph, with no edge, runs.
    assert_eq!(engine.process(None), Ok(0));
    let snapshot = messages.pop().unwrap();
    let sample = engine.process(Some(snapshot)).unwrap();
    assert_eq!(f64::from_bits(sample), 0.5);
    assert_eq!(engine.adjacency_list, mesh.adjacency_list);
    assert_eq!(engine.topologically_ordered, mesh.topologically_ordered);
    assert_eq!(engine.io, mesh.ios);
}

#[test]
fn cyclic_snapshot_stops_propagation() {
    let mut mesh: Mesh<Node> = Mesh::new();
    let mut engine: Engine<Node> = Engine::new();
    mesh.new_processor(Node::Constant(Constant::new()));
    mesh.new_processor(Node::Pipe(Pipe::new()));
    mesh.new_processor(Node::Pipe(Pipe::new()));
    mesh.set_constant(0, 0.5f64.to_bits());
    assert!(mesh.new_connection(0, 0, 1, 0));
    assert!(mesh.new_connection(1, 0, 2, 0));
    drain(&mut mesh, &mut engine).unwrap();
    assert_eq!(engine.input_buffers[2][0], sound(0.5));
    let queued = mesh.pending.len();
    assert!(mesh.new_connection(2, 0, 1, 0));
    assert_eq!(mesh.pending.len(), queued + 1);
    assert!(mesh.topologically_ordered.is_none());
    assert_eq!(mesh.adjacency_list[2][0], vec![(1, 0)]);
    mesh.set_constant(0, 0.75f64.to_bits());
    // The snapshot without an order stops every pass: nothing moves.
    assert_eq!(drain(&mut mesh, &mut engine), Ok(0));
    assert!(engine.topologically_ordered.is_none());
    assert_eq!(engine.input_buffers[0][0], sound(0.75));
    assert_eq!(engine.input_buffers[1][0], sound(0.5));
    assert_eq!(engine.input_buffers[2][0], sound(0.5));
}

#[test]
fn constant_poke_is_processed_in_the_same_tick() {
    let mut mesh: Mesh<Node> = Mesh::new();
    let mut engine: Engine<Node> = Engine::new();
    mesh.new_processor(Node::Constant(Constant::new()));
    mesh.new_processor(Node::Dac(Dac::new()));
    assert!(mesh.new_connection(0, 0, 1, 0));
    drain(&mut mesh, &mut engine).unwrap();
    let sample = engine.process(Some(CallbackMessage::Constant(0, 2.5f64.to_bits()))).unwrap();
    assert_eq!(f64::from_bits(sample), 2.5);
}

#[test]
fn library_nodes_share_one_mesh() {
    let mut mesh: Mesh<Builtin> = Mesh::new();
    let mut engine: Engine<Builtin> = Engine::new();
    mesh.new_processor(Builtin::Constant(Constant::new()));
    mesh.new_processor(Builtin::Slope(Slope::new()));
    mesh.new_processor(Builtin::Pipe(Pipe::new()));
    mesh.new_processor(Builtin::Dac(Dac::new()));
    mesh.new_processor(Builtin::Dummy(Dummy::new()));
    mesh.set_constant(0, 0.125f64.to_bits());
    assert!(mesh.new_connection(0, 0, 1, 0));
    assert!(mesh.new_connection(1, 0, 2, 0));
    assert!(mesh.new_connection(2, 0, 3, 0));
    assert_eq!(mesh.ios, vec![3]);
    assert_eq!(mesh.processor_types[4].2, "Dummy");
    let sample = {
        let mut last = engine.process(None);
        for message in mesh.take_messages() {
            last = engine.process(Some(message));
        }
        last.unwrap()
    };
    assert_eq!(f64::from_bits(sample), 0.125);
}

#[test]
fn wrong_number_of_outputs_is_a_fault() {
    let mut mesh: Mesh<Node> = Mesh::new();
    let mut engine: Engine<Node> = Engine::new();
    mesh.new_processor(Node::Broken);
    mesh.new_processor(Node::Dac(Dac::new()));
    assert!(mesh.new_connection(0, 0, 1, 0));
    assert_eq!(drain(&mut mesh, &mut engine), Err(ProcessFault::WrongArity(0)));
}

#[test]
fn removed_node_stops_running() {
    let mut mesh: Mesh<Node> = Mesh::new();
    let mut engine: Engine<Node> = Engine::new();
    mesh.new_processor(Node::Constant(Constant::new()));
    mesh.new_processor(Node::Broken);
    mesh.new_processor(Node::Dac(Dac::new()));
    mesh.set_constant(0, 0.25f64.to_bits());
    assert!(mesh.new_connection(0, 0, 2, 0));
    assert!(mesh.new_connection(1, 0, 2, 0));
    assert!(matches!(drain(&mut mesh, &mut engine), Err(ProcessFault::WrongArity(1))));
    mesh.delete_processor(1);
    let sample = drain(&mut mesh, &mut engine).unwrap();
    assert!(engine.processors[1].is_none());
    assert_eq!(f64::from_bits(sample), 0.25);
}

#[test]
fn removed_sink_gives_silence() {
    let mut engine: Engine<Node> = Engine::new();
    engine.receive(CallbackMessage::Processor(Node::Dac(Dac::new())));
    engine.receive(CallbackMessage::Connections((vec![vec![]], Some(vec![0]), vec![0])));
    engine.input_buffers[0][0] = sound(0.75);
    assert_eq!(engine.current_sample(), 0.75f64.to_bits());
    engine.receive(CallbackMessage::ProcessorDeletion(0));
    assert_eq!(engine.process(None), Ok(0));
}

#[test]
fn constant_value_reaches_only_constants() {
    let mut engine: Engine<Node> = Engine::new();
    engine.receive(CallbackMessage::Processor(Node::Constant(Constant::new())));
    engine.receive(CallbackMessage::Processor(Node::Pipe(Pipe::new())));
    engine.set_constant(0, 9);
    engine.set_constant(1, 9);
    engine.set_constant(4, 9);
    assert_eq!(engine.input_buffers[0], vec![Signal::Sound(9)]);
    assert_eq!(engine.input_buffers[1], vec![Signal::Sound(0)]);
}

#[test]
fn new_engine_is_silent() {
    let mut engine: Engine<Node> = Engine::new();
    assert_eq!(engine.process(None), Ok(0));
    assert_eq!(engine.current_sample(), 0);
}

#[test]
fn integer_signals_flow_through_pipes() {
    let mut mesh: Mesh<Node> = Mesh::new();
    let mut engine: Engine<Node> = Engine::new();
    mesh.new_processor(Node::Intpipe(Intpipe::new()));
    mesh.new_processor(Node::Intpipe(Intpipe::new()));
    assert!(mesh.new_connection(0, 0, 1, 0));
    for message in mesh.take_messages() {
        engine.process(Some(message)).unwrap();
    }
    engine.input_buffers[0][0] = Signal::Int(42);
    engine.process(None).unwrap();
    assert_eq!(engine.input_buffers[1][0], Signal::Int(42));
}

#[test]
fn clones_copy_their_input() {
    let adj: Vec<Vec<Vec<(usize, usize)>>> = vec![vec![vec![(1, 0), (2, 1)], vec![]], vec![]];
    assert_eq!(adj_clone(&adj), adj);
    assert_eq!(topo_clone(&Some(vec![2, 0, 1])), Some(vec![2, 0, 1]));
    assert_eq!(topo_clone(&None), None);
    assert_eq!(io_clone(&vec![3, 1]), vec![3, 1]);
    assert!(contains(&vec![4, 8, 15], &8));
    assert!(!contains(&vec![4, 8, 15], &16));
    assert!(!contains(&vec![], &0));
}

#[test]
fn signal_kinds_ignore_values() {
    assert_eq!(Signal::Sound(3).kind(), SignalKind::Sound);
    assert_eq!(Signal::Int(-3).kind(), SignalKind::Int);
    assert!(Signal::Sound(1).same_kind(&Signal::Sound(2)));
    assert!(Signal::Int(1).same_kind(&Signal::Int(-7)));
    assert!(!Signal::Sound(1).same_kind(&Signal::Int(1)));
}

#[test]
fn processors_declare_their_plugs() {
    let mut constant = Constant::new();
    assert_eq!(constant.process(&vec![sound(1.5)]), vec![sound(1.5)]);
    assert_eq!(constant.kind_name(), "Constant");
    let mut dac = Dac::new();
    assert_eq!(dac.process(&vec![sound(1.5)]), vec![]);
    assert_eq!(dac.output_types().len(), 0);
    assert_eq!(dac.kind_name(), "Dac");
    let mut dummy = Dummy::new();
    assert_eq!(dummy.input_types_and_defaults().len(), 0);
    assert_eq!(dummy.process(&vec![]), vec![]);
    let mut intpipe = Intpipe::new();
    assert_eq!(intpipe.process(&vec![Signal::Int(5)]), vec![Signal::Int(5)]);
    assert_eq!(intpipe.process(&vec![Signal::Sound(5)]), vec![]);
    let mut pipe = Pipe::new();
    assert_eq!(pipe.process(&vec![sound(-2.0)]), vec![sound(-2.0)]);
    assert_eq!(pipe.process(&vec![Signal::Int(1)]), vec![]);
    let mut slope = Slope::new();
    assert_eq!(slope.input_types_and_defaults().len(), 4);
    assert_eq!(slope.process(&vec![sound(0.5), sound(0.0), sound(0.0), sound(0.0)]), vec![sound(0.5)]);
}
