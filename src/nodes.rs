use vstd::prelude::*;
use crate::processor::Processor;
use crate::signal::Signal;

verus! {

/// A source whose one input plug holds a value set from outside; it hands
/// that value on unchanged.
pub struct Constant;

impl Constant {
    pub fn new() -> Constant {
        Constant
    }
}

impl Processor for Constant {
    open spec fn declared_inputs(&self) -> Seq<Signal> {
        seq![Signal::Sound(0)]
    }

    open spec fn declared_outputs(&self) -> Seq<Signal> {
        seq![Signal::Sound(0)]
    }

    open spec fn kind(&self) -> Seq<char> {
        "Constant"@
    }

    open spec fn step(&self, input: Seq<Signal>) -> Seq<Signal> {
        if input.len() > 0 {
            seq![input[0]]
        } else {
            Seq::empty()
        }
    }

    fn process(&mut self, input: &Vec<Signal>) -> (r: Vec<Signal>) {
        let mut out: Vec<Signal> = Vec::new();
        if input.len() > 0 {
            out.push(input[0]);
        }
        out
    }

    fn input_types_and_defaults(&self) -> (r: Vec<Signal>) {
        vec![Signal::Sound(0)]
    }

    fn output_types(&self) -> (r: Vec<Signal>) {
        vec![Signal::Sound(0)]
    }

    fn kind_name(&self) -> (r: String) {
        "Constant".to_owned()
    }
}

/// The output sink: its one input plug holds the sample that the engine
/// hands out after each pass. It has no output plugs.
pub struct Dac;

impl Dac {
    pub fn new() -> Dac {
        Dac
    }
}

impl Processor for Dac {
    open spec fn declared_inputs(&self) -> Seq<Signal> {
        seq![Signal::Sound(0)]
    }

    open spec fn declared_outputs(&self) -> Seq<Signal> {
        Seq::empty()
    }

    open spec fn kind(&self) -> Seq<char> {
        "Dac"@
    }

    open spec fn step(&self, input: Seq<Signal>) -> Seq<Signal> {
        Seq::empty()
    }

    fn process(&mut self, _input: &Vec<Signal>) -> (r: Vec<Signal>) {
        Vec::new()
    }

    fn input_types_and_defaults(&self) -> (r: Vec<Signal>) {
        vec![Signal::Sound(0)]
    }

    fn output_types(&self) -> (r: Vec<Signal>) {
        Vec::new()
    }

    fn kind_name(&self) -> (r: String) {
        "Dac".to_owned()
    }
}

/// The inert processor: no plugs, no work.
pub struct Dummy;

impl Dummy {
    pub fn new() -> Dummy {
        Dummy
    }
}

impl Processor for Dummy {
    open spec fn declared_inputs(&self) -> Seq<Signal> {
        Seq::empty()
    }

    open spec fn declared_outputs(&self) -> Seq<Signal> {
        Seq::empty()
    }

    open spec fn kind(&self) -> Seq<char> {
        "Dummy"@
    }

    open spec fn step(&self, input: Seq<Signal>) -> Seq<Signal> {
        Seq::empty()
    }

    fn process(&mut self, _input: &Vec<Signal>) -> (r: Vec<Signal>) {
        Vec::new()
    }

    fn input_types_and_defaults(&self) -> (r: Vec<Signal>) {
        Vec::new()
    }

    fn output_types(&self) -> (r: Vec<Signal>) {
        Vec::new()
    }

    fn kind_name(&self) -> (r: String) {
        "Dummy".to_owned()
    }
}

/// Hands an integer signal on unchanged.
pub struct Intpipe;

impl Intpipe {
    pub fn new() -> Intpipe {
        Intpipe
    }
}

impl Processor for Intpipe {
    open spec fn declared_inputs(&self) -> Seq<Signal> {
        seq![Signal::Int(0)]
    }

    open spec fn declared_outputs(&self) -> Seq<Signal> {
        seq![Signal::Int(0)]
    }

    open spec fn kind(&self) -> Seq<char> {
        "Intpipe"@
    }

    open spec fn step(&self, input: Seq<Signal>) -> Seq<Signal> {
        if input.len() > 0 && input[0] is Int {
            seq![input[0]]
        } else {
            Seq::empty()
        }
    }

    /// An input that is not an integer yields no output, which the engine
    /// reports as a broken processor.
    fn process(&mut self, input: &Vec<Signal>) -> (r: Vec<Signal>) {
        let mut out: Vec<Signal> = Vec::new();
        if input.len() > 0 {
            if let Signal::Int(a) = input[0] {
                out.push(Signal::Int(a));
            }
        }
        out
    }

    fn input_types_and_defaults(&self) -> (r: Vec<Signal>) {
        vec![Signal::Int(0)]
    }

    fn output_types(&self) -> (r: Vec<Signal>) {
        vec![Signal::Int(0)]
    }

    fn kind_name(&self) -> (r: String) {
        "Intpipe".to_owned()
    }
}

/// Hands a sound signal on unchanged.
pub struct Pipe;

impl Pipe {
    pub fn new() -> Pipe {
        Pipe
    }
}

impl Processor for Pipe {
    open spec fn declared_inputs(&self) -> Seq<Signal> {
        seq![Signal::Sound(0)]
    }

    open spec fn declared_outputs(&self) -> Seq<Signal> {
        seq![Signal::Sound(0)]
    }

    open spec fn kind(&self) -> Seq<char> {
        "Pipe"@
    }

    open spec fn step(&self, input: Seq<Signal>) -> Seq<Signal> {
        if input.len() > 0 && input[0] is Sound {
            seq![input[0]]
        } else {
            Seq::empty()
        }
    }

    /// An input that is not a sound yields no output, which the engine
    /// reports as a broken processor.
    fn process(&mut self, input: &Vec<Signal>) -> (r: Vec<Signal>) {
        let mut out: Vec<Signal> = Vec::new();
        if input.len() > 0 {
            if let Signal::Sound(a) = input[0] {
                out.push(Signal::Sound(a));
            }
        }
        out
    }

    fn input_types_and_defaults(&self) -> (r: Vec<Signal>) {
        vec![Signal::Sound(0)]
    }

    fn output_types(&self) -> (r: Vec<Signal>) {
        vec![Signal::Sound(0)]
    }

    fn kind_name(&self) -> (r: String) {
        "Pipe".to_owned()
    }
}

/// An envelope segment with four sound inputs (end amplitude first); for now
/// it hands its first input on unchanged.
pub struct Slope;

impl Slope {
    pub fn new() -> Slope {
        Slope
    }
}

impl Processor for Slope {
    open spec fn declared_inputs(&self) -> Seq<Signal> {
        seq![Signal::Sound(0), Signal::Sound(0), Signal::Sound(0), Signal::Sound(0)]
    }

    open spec fn declared_outputs(&self) -> Seq<Signal> {
        seq![Signal::Sound(0)]
    }

    open spec fn kind(&self) -> Seq<char> {
        "Slope"@
    }

    open spec fn step(&self, input: Seq<Signal>) -> Seq<Signal> {
        if input.len() > 0 && input[0] is Sound {
            seq![input[0]]
        } else {
            Seq::empty()
        }
    }

    fn process(&mut self, input: &Vec<Signal>) -> (r: Vec<Signal>) {
        let mut out: Vec<Signal> = Vec::new();
        if input.len() > 0 {
            if let Signal::Sound(a) = input[0] {
                out.push(Signal::Sound(a));
            }
        }
        out
    }

    fn input_types_and_defaults(&self) -> (r: Vec<Signal>) {
        vec![Signal::Sound(0), Signal::Sound(0), Signal::Sound(0), Signal::Sound(0)]
    }

    fn output_types(&self) -> (r: Vec<Signal>) {
        vec![Signal::Sound(0)]
    }

    fn kind_name(&self) -> (r: String) {
        "Slope".to_owned()
    }
}

/// Every processor kind of this library, behind one type, so that one mesh
/// and one engine can hold nodes of different kinds.
pub enum Node {
    Constant(Constant),
    Dac(Dac),
    Dummy(Dummy),
    Intpipe(Intpipe),
    Pipe(Pipe),
    Slope(Slope),
}

impl Processor for Node {
    open spec fn declared_inputs(&self) -> Seq<Signal> {
        match self {
            Node::Constant(p) => p.declared_inputs(),
            Node::Dac(p) => p.declared_inputs(),
            Node::Dummy(p) => p.declared_inputs(),
            Node::Intpipe(p) => p.declared_inputs(),
            Node::Pipe(p) => p.declared_inputs(),
            Node::Slope(p) => p.declared_inputs(),
        }
    }

    open spec fn declared_outputs(&self) -> Seq<Signal> {
        match self {
            Node::Constant(p) => p.declared_outputs(),
            Node::Dac(p) => p.declared_outputs(),
            Node::Dummy(p) => p.declared_outputs(),
            Node::Intpipe(p) => p.declared_outputs(),
            Node::Pipe(p) => p.declared_outputs(),
            Node::Slope(p) => p.declared_outputs(),
        }
    }

    open spec fn kind(&self) -> Seq<char> {
        match self {
            Node::Constant(p) => p.kind(),
            Node::Dac(p) => p.kind(),
            Node::Dummy(p) => p.kind(),
            Node::Intpipe(p) => p.kind(),
            Node::Pipe(p) => p.kind(),
            Node::Slope(p) => p.kind(),
        }
    }

    open spec fn step(&self, input: Seq<Signal>) -> Seq<Signal> {
        match self {
            Node::Constant(p) => p.step(input),
            Node::Dac(p) => p.step(input),
            Node::Dummy(p) => p.step(input),
            Node::Intpipe(p) => p.step(input),
            Node::Pipe(p) => p.step(input),
            Node::Slope(p) => p.step(input),
        }
    }

    fn process(&mut self, input: &Vec<Signal>) -> (r: Vec<Signal>) {
        match self {
            Node::Constant(p) => p.process(input),
            Node::Dac(p) => p.process(input),
            Node::Dummy(p) => p.process(input),
            Node::Intpipe(p) => p.process(input),
            Node::Pipe(p) => p.process(input),
            Node::Slope(p) => p.process(input),
        }
    }

    fn input_types_and_defaults(&self) -> (r: Vec<Signal>) {
        match self {
            Node::Constant(p) => p.input_types_and_defaults(),
            Node::Dac(p) => p.input_types_and_defaults(),
            Node::Dummy(p) => p.input_types_and_defaults(),
            Node::Intpipe(p) => p.input_types_and_defaults(),
            Node::Pipe(p) => p.input_types_and_defaults(),
            Node::Slope(p) => p.input_types_and_defaults(),
        }
    }

    fn output_types(&self) -> (r: Vec<Signal>) {
        match self {
            Node::Constant(p) => p.output_types(),
            Node::Dac(p) => p.output_types(),
            Node::Dummy(p) => p.output_types(),
            Node::Intpipe(p) => p.output_types(),
            Node::Pipe(p) => p.output_types(),
            Node::Slope(p) => p.output_types(),
        }
    }

    fn kind_name(&self) -> (r: String) {
        match self {
            Node::Constant(p) => p.kind_name(),
            Node::Dac(p) => p.kind_name(),
            Node::Dummy(p) => p.kind_name(),
            Node::Intpipe(p) => p.kind_name(),
            Node::Pipe(p) => p.kind_name(),
            Node::Slope(p) => p.kind_name(),
        }
    }
}

} // verus!
