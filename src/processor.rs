use vstd::prelude::*;
use crate::signal::Signal;

verus! {

/// What every node of the graph implements.
///
/// A processor declares one signal per input plug (`declared_inputs`) and
/// per output plug (`declared_outputs`): the kind of each signal is the kind
/// that the plug carries, and an input plug starts out holding its default.
/// `kind` names the kind of processor. All three are fixed for the
/// processor's lifetime. `step` is what one call of `process` returns, given
/// the processor's state before the call and the current inputs. The four
/// spec functions default to unknown values, so that an implementation that
/// is not verified need not give them; every processor of this library does.
pub trait Processor {
    closed spec fn declared_inputs(&self) -> Seq<Signal> {
        arbitrary()
    }

    closed spec fn declared_outputs(&self) -> Seq<Signal> {
        arbitrary()
    }

    closed spec fn kind(&self) -> Seq<char> {
        arbitrary()
    }

    closed spec fn step(&self, input: Seq<Signal>) -> Seq<Signal> {
        arbitrary()
    }

    fn process(&mut self, input: &Vec<Signal>) -> (r: Vec<Signal>)
        ensures
            r@ == old(self).step(input@),
            final(self).declared_inputs() == old(self).declared_inputs(),
            final(self).declared_outputs() == old(self).declared_outputs(),
            final(self).kind() == old(self).kind(),
    ;

    fn input_types_and_defaults(&self) -> (r: Vec<Signal>)
        ensures
            r@ == self.declared_inputs(),
    ;

    fn output_types(&self) -> (r: Vec<Signal>)
        ensures
            r@ == self.declared_outputs(),
    ;

    fn kind_name(&self) -> (r: String)
        ensures
            r@ == self.kind(),
    ;
}

} // verus!
