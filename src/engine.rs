use vstd::prelude::*;
use crate::processor::Processor;
use crate::signal::Signal;
use crate::topology::{AdjList, AdjView, TopoList};

verus! {

/// The contents of every input plug: `[node][input_plug]`.
pub type Buffers = Seq<Seq<Signal>>;

/// The mathematical form of the input buffers.
pub open spec fn buffers_view(b: &Vec<Vec<Signal>>) -> Buffers {
    b@.map_values(|row: Vec<Signal>| row@)
}

/// Input plug `plug` of node `node` now holds `s`; an address outside the
/// buffers changes nothing.
pub open spec fn write(b: Buffers, node: int, plug: int, s: Signal) -> Buffers {
    if 0 <= node < b.len() && 0 <= plug < b[node].len() {
        b.update(node, b[node].update(plug, s))
    } else {
        b
    }
}

/// `s` is written to each target in turn.
pub open spec fn write_targets(b: Buffers, targets: Seq<(usize, usize)>, s: Signal) -> Buffers
    decreases targets.len(),
{
    if targets.len() == 0 {
        b
    } else {
        let t = targets.last();
        write(write_targets(b, targets.drop_last(), s), t.0 as int, t.1 as int, s)
    }
}

/// Each output plug in turn writes its signal to each of its targets, so that
/// of two writes to one input plug the later one stays.
pub open spec fn scatter(b: Buffers, row: Seq<Seq<(usize, usize)>>, outs: Seq<Signal>) -> Buffers
    decreases row.len(),
{
    if row.len() == 0 {
        b
    } else {
        let p = row.len() - 1;
        write_targets(scatter(b, row.drop_last(), outs), row[p], outs[p])
    }
}

proof fn lemma_write_targets_shape(b: Buffers, targets: Seq<(usize, usize)>, s: Signal)
    ensures
        write_targets(b, targets, s).len() == b.len(),
        forall|n: int| 0 <= n < b.len() ==> #[trigger] write_targets(b, targets, s)[n].len() == b[n].len(),
    decreases targets.len(),
{
    if targets.len() > 0 {
        lemma_write_targets_shape(b, targets.drop_last(), s);
    }
}

/// Scattering changes no buffer's length.
pub proof fn lemma_scatter_shape(b: Buffers, row: Seq<Seq<(usize, usize)>>, outs: Seq<Signal>)
    ensures
        scatter(b, row, outs).len() == b.len(),
        forall|n: int| 0 <= n < b.len() ==> #[trigger] scatter(b, row, outs)[n].len() == b[n].len(),
    decreases row.len(),
{
    if row.len() > 0 {
        let prev = scatter(b, row.drop_last(), outs);
        lemma_scatter_shape(b, row.drop_last(), outs);
        lemma_write_targets_shape(prev, row[row.len() - 1], outs[row.len() - 1]);
    }
}

/// A copy of a row of signals.
pub(crate) fn copy_row(row: &Vec<Signal>) -> (r: Vec<Signal>)
    ensures
        r@ == row@,
{
    let mut r: Vec<Signal> = Vec::new();
    let mut i: usize = 0;
    while i < row.len()
        invariant
            i <= row.len(),
            r@ == row@.subrange(0, i as int),
        decreases row.len() - i,
    {
        r.push(row[i]);
        i += 1;
        assert(r@ =~= row@.subrange(0, i as int));
    }
    assert(r@ =~= row@);
    r
}

/// Writes `outs[p]` to every target of output plug `p`, plug by plug and
/// target by target.
fn scatter_into(buffers: &mut Vec<Vec<Signal>>, row: &Vec<Vec<(usize, usize)>>, outs: &Vec<Signal>)
    requires
        outs.len() == row.len(),
    ensures
        buffers_view(final(buffers)) == scatter(buffers_view(old(buffers)), row.deep_view(), outs@),
{
    let ghost b0 = buffers_view(buffers);
    let ghost g = row.deep_view();
    let mut p: usize = 0;
    while p < row.len()
        invariant
            g == row.deep_view(),
            outs.len() == row.len(),
            p <= row.len(),
            buffers_view(buffers) == scatter(b0, g.subrange(0, p as int), outs@),
        decreases row.len() - p,
    {
        let targets = &row[p];
        let s = outs[p];
        let ghost before = buffers_view(buffers);
        let mut k: usize = 0;
        while k < targets.len()
            invariant
                g == row.deep_view(),
                p < row.len(),
                targets == row@[p as int],
                k <= targets.len(),
                buffers_view(buffers) == write_targets(before, g[p as int].subrange(0, k as int), s),
            decreases targets.len() - k,
        {
            let (node, plug) = targets[k];
            let ghost pre = buffers_view(buffers);
            if node < buffers.len() && plug < buffers[node].len() {
                buffers[node][plug] = s;
            }
            proof {
                let ts = g[p as int].subrange(0, k as int + 1);
                assert(ts.drop_last() =~= g[p as int].subrange(0, k as int));
                assert(buffers_view(buffers) =~= write(pre, node as int, plug as int, s));
            }
            k += 1;
        }
        proof {
            assert(g[p as int].subrange(0, k as int) =~= g[p as int]);
            assert(g.subrange(0, p as int + 1).drop_last() =~= g.subrange(0, p as int));
        }
        p += 1;
    }
    assert(g.subrange(0, p as int) =~= g);
}

/// Node by node along `order`, the first `k` steps of a pass: a node that
/// runs scatters the outputs recorded for its step; any other node is
/// skipped.
pub open spec fn pass(
    b: Buffers,
    adj: AdjView,
    order: Seq<usize>,
    runs: Seq<bool>,
    outs: Seq<Seq<Signal>>,
    k: int,
) -> Buffers
    decreases k,
{
    if k <= 0 {
        b
    } else {
        let prev = pass(b, adj, order, runs, outs, k - 1);
        let v = order[k - 1] as int;
        if 0 <= v < runs.len() && runs[v] {
            scatter(prev, adj[v], outs[k - 1])
        } else {
            prev
        }
    }
}

/// A message from the control side to the engine.
pub enum CallbackMessage<P> {
    /// A newly registered processor; it takes the next node index.
    Processor(P),
    /// A snapshot of the graph: fan-out lists, a topological order of the
    /// nodes (`None` when the graph has a cycle), and the sink nodes.
    Connections((AdjList, TopoList, Vec<usize>)),
    /// A new value, as amplitude bits, for the input of a constant node.
    Constant(usize, u64),
    /// The node at this index becomes the inert placeholder.
    ProcessorDeletion(usize),
}

/// Why a pass stopped.
#[derive(Clone, Copy, Debug, PartialEq, Eq, Structural)]
pub enum ProcessFault {
    /// The node at this index returned a number of outputs other than its
    /// number of output plugs.
    WrongArity(usize),
}

/// The real-time side: its own copy of the graph, the processors, and the
/// input buffers, advanced one pass per requested sample.
pub struct Engine<P> {
    /// `None` marks a removed node: an inert placeholder that never runs.
    pub processors: Vec<Option<P>>,
    /// The kind name each processor gave when it arrived.
    pub kind_names: Vec<String>,
    pub input_buffers: Vec<Vec<Signal>>,
    pub adjacency_list: AdjList,
    /// `None` while the graph has a cycle: no pass runs then.
    pub topologically_ordered: TopoList,
    pub io: Vec<usize>,
    /// What each step of the latest pass produced, one entry per step taken.
    pub last_outputs: Ghost<Seq<Seq<Signal>>>,
}

/// A sound sample's bits, or silence for anything else.
pub open spec fn sample_of(s: Signal) -> u64 {
    match s {
        Signal::Sound(b) => b,
        Signal::Int(_) => 0,
    }
}

impl<P: Processor> Engine<P> {
    /// One processor, one kind name and one row of input buffers per node.
    pub open spec fn wf(&self) -> bool {
        &&& self.processors.len() == self.input_buffers.len()
        &&& self.processors.len() == self.kind_names.len()
    }

    /// Which nodes run in a pass: those that are not removed and that the
    /// current snapshot gives fan-out lists.
    pub open spec fn runs(&self) -> Seq<bool> {
        Seq::new(
            self.processors.len() as nat,
            |v: int| self.processors@[v] is Some && v < self.input_buffers.len() && v < self.adjacency_list.len(),
        )
    }

    /// Node `v` is a live sink with an input plug to read.
    pub open spec fn is_sink(&self, v: int) -> bool {
        &&& 0 <= v < self.processors.len()
        &&& self.processors@[v] is Some
        &&& v < self.kind_names.len()
        &&& self.kind_names@[v]@ == "Dac"@
        &&& v < self.input_buffers.len()
        &&& self.input_buffers@[v].len() > 0
    }

    /// The sample of the first live sink among `io`, or silence.
    pub open spec fn sink_sample(&self, io: Seq<usize>) -> u64
        decreases io.len(),
    {
        if io.len() == 0 {
            0
        } else if self.is_sink(io[0] as int) {
            sample_of(self.input_buffers@[io[0] as int]@[0])
        } else {
            self.sink_sample(io.drop_first())
        }
    }

    /// Node `v` is a live constant with an input plug to set.
    pub open spec fn is_constant(&self, v: int) -> bool {
        &&& 0 <= v < self.processors.len()
        &&& self.processors@[v] is Some
        &&& v < self.kind_names.len()
        &&& self.kind_names@[v]@ == "Constant"@
        &&& v < self.input_buffers.len()
        &&& self.input_buffers@[v].len() > 0
    }

    pub fn new() -> (r: Engine<P>)
        ensures
            r.wf(),
            r.processors.len() == 0,
            r.adjacency_list.len() == 0,
            r.topologically_ordered matches Some(o) && o.len() == 0,
            r.io.len() == 0,
    {
        Engine {
            processors: Vec::new(),
            kind_names: Vec::new(),
            input_buffers: Vec::new(),
            adjacency_list: Vec::new(),
            topologically_ordered: Some(Vec::new()),
            io: Vec::new(),
            last_outputs: Ghost(Seq::empty()),
        }
    }

    /// Appends a processor as the next node, its input plugs holding their
    /// declared defaults.
    fn add_processor(&mut self, processor: P)
        requires
            old(self).wf(),
        ensures
            final(self).wf(),
            final(self).processors@ == old(self).processors@.push(Some(processor)),
            buffers_view(&final(self).input_buffers) == buffers_view(&old(self).input_buffers).push(processor.declared_inputs()),
            final(self).kind_names@.drop_last() == old(self).kind_names@,
            final(self).kind_names@.last()@ == processor.kind(),
            final(self).adjacency_list == old(self).adjacency_list,
            final(self).topologically_ordered == old(self).topologically_ordered,
            final(self).io == old(self).io,
    {
        let defaults = processor.input_types_and_defaults();
        let name = processor.kind_name();
        self.input_buffers.push(defaults);
        self.kind_names.push(name);
        self.processors.push(Some(processor));
        proof {
            assert(buffers_view(&self.input_buffers) =~= buffers_view(&old(self).input_buffers).push(processor.declared_inputs()));
        }
    }

    /// Replaces the node at `index`, if there is one, by the inert placeholder.
    fn remove_processor(&mut self, index: usize)
        requires
            old(self).wf(),
        ensures
            final(self).wf(),
            final(self).processors@ == if index < old(self).processors.len() {
                old(self).processors@.update(index as int, None)
            } else {
                old(self).processors@
            },
            final(self).kind_names == old(self).kind_names,
            final(self).input_buffers == old(self).input_buffers,
            final(self).adjacency_list == old(self).adjacency_list,
            final(self).topologically_ordered == old(self).topologically_ordered,
            final(self).io == old(self).io,
    {
        if index < self.processors.len() {
            self.processors.set(index, None);
        }
    }

    /// Takes a snapshot of the graph as a whole.
    fn update_connections(&mut self, adjacency_list: AdjList, topologically_ordered: TopoList, io: Vec<usize>)
        requires
            old(self).wf(),
        ensures
            final(self).wf(),
            final(self).adjacency_list == adjacency_list,
            final(self).topologically_ordered == topologically_ordered,
            final(self).io == io,
            final(self).processors == old(self).processors,
            final(self).kind_names == old(self).kind_names,
            final(self).input_buffers == old(self).input_buffers,
    {
        self.adjacency_list = adjacency_list;
        self.topologically_ordered = topologically_ordered;
        self.io = io;
    }

    /// Whether node `v` is a live processor whose kind name is `marker` and
    /// which has an input plug.
    fn has_kind(&self, v: usize, marker: &String) -> (r: bool)
        requires
            self.wf(),
        ensures
            r == (v < self.processors.len() && self.processors@[v as int] is Some
                && self.kind_names@[v as int]@ == marker@ && self.input_buffers@[v as int].len() > 0),
    {
        v < self.processors.len() && self.processors[v].is_some() && self.kind_names[v] == *marker
            && self.input_buffers[v].len() > 0
    }

    /// Sets the first input plug of a constant node to a sound with these
    /// amplitude bits; any other node is left alone.
    pub fn set_constant(&mut self, constant: usize, value: u64)
        requires
            old(self).wf(),
        ensures
            final(self).wf(),
            buffers_view(&final(self).input_buffers) == if old(self).is_constant(constant as int) {
                let b = buffers_view(&old(self).input_buffers);
                b.update(constant as int, b[constant as int].update(0, Signal::Sound(value)))
            } else {
                buffers_view(&old(self).input_buffers)
            },
            final(self).processors == old(self).processors,
            final(self).kind_names == old(self).kind_names,
            final(self).adjacency_list == old(self).adjacency_list,
            final(self).topologically_ordered == old(self).topologically_ordered,
            final(self).io == old(self).io,
    {
        let marker = "Constant".to_owned();
        if self.has_kind(constant, &marker) {
            self.input_buffers[constant][0] = Signal::Sound(value);
            proof {
                let b = buffers_view(&old(self).input_buffers);
                assert(buffers_view(&self.input_buffers) =~= b.update(constant as int, b[constant as int].update(0, Signal::Sound(value))));
            }
        }
    }

    /// The sample of the first live sink among the sink nodes, or silence.
    pub fn current_sample(&self) -> (r: u64)
        requires
            self.wf(),
        ensures
            r == self.sink_sample(self.io@),
    {
        let marker = "Dac".to_owned();
        let mut i: usize = 0;
        assert(self.io@.subrange(0, self.io.len() as int) =~= self.io@);
        while i < self.io.len()
            invariant
                self.wf(),
                marker@ == "Dac"@,
                i <= self.io.len(),
                self.sink_sample(self.io@) == self.sink_sample(self.io@.subrange(i as int, self.io.len() as int)),
            decreases self.io.len() - i,
        {
            let v = self.io[i];
            let ghost rest = self.io@.subrange(i as int, self.io.len() as int);
            assert(rest[0] == v);
            if self.has_kind(v, &marker) {
                return match self.input_buffers[v][0] {
                    Signal::Sound(b) => b,
                    Signal::Int(_) => 0,
                };
            }
            assert(rest.drop_first() =~= self.io@.subrange(i as int + 1, self.io.len() as int));
            i += 1;
        }
        assert(self.io@.subrange(i as int, self.io.len() as int).len() == 0);
        0
    }

    /// The order held, or no node at all while there is none.
    pub open spec fn order(&self) -> Seq<usize> {
        match self.topologically_ordered {
            Some(o) => o@,
            None => Seq::empty(),
        }
    }

    /// The step at position `j` of the order gave as many outputs as its node
    /// has output plugs, if that node runs.
    pub open spec fn step_ok(&self, outs: Seq<Seq<Signal>>, j: int) -> bool {
        let v = self.order()[j] as int;
        (0 <= v < self.runs().len() && self.runs()[v]) ==> outs[j].len() == self.adjacency_list@[v].len()
    }

    /// At step `j` of a pass from this engine, a running node that has not run
    /// before in the pass produced what its processor returns on its input
    /// row as the earlier steps left it; a node that does not run produced
    /// nothing.
    pub open spec fn step_fed(&self, outs: Seq<Seq<Signal>>, j: int) -> bool {
        let order = self.order();
        let v = order[j] as int;
        let row = pass(buffers_view(&self.input_buffers), self.adjacency_list.deep_view(), order, self.runs(), outs, j)[v];
        if 0 <= v < self.runs().len() && self.runs()[v] {
            untouched(order, j, v) ==> outs[j] == self.processors@[v].unwrap().step(row)
        } else {
            outs[j] == Seq::<Signal>::empty()
        }
    }

    /// What a pass from `pre` leaves in `post` and returns. With no order, no
    /// node runs, nothing changes and the result is silence. Otherwise the
    /// graph and the liveness of every node are kept; along the order, each
    /// running node is handed its current input row and its outputs are
    /// scattered, until a node gives the wrong number of outputs; a node
    /// that did not run is left as it was.
    pub open spec fn ran(pre: Engine<P>, post: Engine<P>, r: Result<u64, ProcessFault>) -> bool {
        let order = pre.order();
        let outs = post.last_outputs@;
        let b0 = buffers_view(&pre.input_buffers);
        let adj = pre.adjacency_list.deep_view();
        &&& post.wf()
        &&& post.adjacency_list == pre.adjacency_list
        &&& post.topologically_ordered == pre.topologically_ordered
        &&& post.io == pre.io
        &&& post.kind_names == pre.kind_names
        &&& post.processors.len() == pre.processors.len()
        &&& forall|v: int| 0 <= v < pre.processors.len()
            ==> (#[trigger] post.processors@[v] is Some <==> pre.processors@[v] is Some)
        &&& forall|v: int| 0 <= v < pre.processors.len() && #[trigger] untouched(order, outs.len() as int, v)
            ==> post.processors@[v] == pre.processors@[v]
        &&& outs.len() <= order.len()
        &&& forall|j: int| 0 <= j < outs.len() ==> #[trigger] pre.step_fed(outs, j)
        &&& pre.topologically_ordered is None ==> {
            &&& outs.len() == 0
            &&& post.input_buffers == pre.input_buffers
            &&& r == Ok::<u64, ProcessFault>(0)
        }
        &&& match r {
            Ok(sample) => {
                &&& outs.len() == order.len()
                &&& forall|j: int| 0 <= j < outs.len() ==> #[trigger] pre.step_ok(outs, j)
                &&& buffers_view(&post.input_buffers) == pass(b0, adj, order, pre.runs(), outs, order.len() as int)
                &&& pre.topologically_ordered is Some ==> sample == post.sink_sample(post.io@)
            },
            Err(ProcessFault::WrongArity(v)) => {
                &&& 0 < outs.len() <= order.len()
                &&& forall|j: int| 0 <= j < outs.len() - 1 ==> #[trigger] pre.step_ok(outs, j)
                &&& !pre.step_ok(outs, outs.len() - 1)
                &&& v == order[outs.len() - 1]
                &&& buffers_view(&post.input_buffers) == pass(b0, adj, order, pre.runs(), outs, outs.len() - 1)
            },
        }
    }

    /// One propagation pass along the held order, then the sample.
    fn run_pass(&mut self) -> (r: Result<u64, ProcessFault>)
        requires
            old(self).wf(),
        ensures
            Self::ran(*old(self), *final(self), r),
    {
        let ghost b0 = buffers_view(&self.input_buffers);
        let ghost adj = self.adjacency_list.deep_view();
        let ghost runs = self.runs();
        let ghost ord = self.order();
        self.last_outputs = Ghost(Seq::empty());
        let order: &Vec<usize> = match &self.topologically_ordered {
            Some(o) => o,
            None => {
                return Ok(0);
            },
        };
        let mut idx: usize = 0;
        while idx < order.len()
            invariant
                self.wf(),
                old(self).wf(),
                order@ == ord,
                ord == old(self).order(),
                idx <= order.len(),
                adj == old(self).adjacency_list.deep_view(),
                runs == old(self).runs(),
                b0 == buffers_view(&old(self).input_buffers),
                self.adjacency_list == old(self).adjacency_list,
                self.topologically_ordered == old(self).topologically_ordered,
                self.io == old(self).io,
                self.kind_names == old(self).kind_names,
                self.processors.len() == old(self).processors.len(),
                forall|v: int| 0 <= v < old(self).processors.len()
                    ==> (#[trigger] self.processors@[v] is Some <==> old(self).processors@[v] is Some),
                forall|v: int| 0 <= v < old(self).processors.len() && #[trigger] untouched(ord, idx as int, v)
                    ==> self.processors@[v] == old(self).processors@[v],
                self.last_outputs@.len() == idx,
                forall|j: int| 0 <= j < idx ==> #[trigger] old(self).step_ok(self.last_outputs@, j),
                forall|j: int| 0 <= j < idx ==> #[trigger] old(self).step_fed(self.last_outputs@, j),
                buffers_view(&self.input_buffers) == pass(b0, adj, ord, runs, self.last_outputs@, idx as int),
            decreases order.len() - idx,
        {
            let v = order[idx];
            let ghost outs_before = self.last_outputs@;
            let ghost procs_before = self.processors@;
            if v < self.processors.len() && self.processors[v].is_some() && v < self.adjacency_list.len() {
                assert(self.processors@[v as int] is Some);
                assert(runs[v as int]);
                let inputs = copy_row(&self.input_buffers[v]);
                let outs = match &mut self.processors[v] {
                    Some(p) => p.process(&inputs),
                    None => Vec::new(),
                };
                self.last_outputs = Ghost(self.last_outputs@.push(outs@));
                proof {
                    assert forall|w: int| 0 <= w < old(self).processors.len() && #[trigger] untouched(ord, idx + 1, w)
                        implies self.processors@[w] == old(self).processors@[w] by {
                        assert(ord[idx as int] as int != w);
                        assert(untouched(ord, idx as int, w));
                    }
                    assert forall|j: int| 0 <= j < idx implies #[trigger] old(self).step_ok(self.last_outputs@, j) by {
                        assert(old(self).step_ok(outs_before, j));
                        assert(self.last_outputs@[j] == outs_before[j]);
                    }
                    assert forall|j: int| 0 <= j < idx implies #[trigger] old(self).step_fed(self.last_outputs@, j) by {
                        assert(old(self).step_fed(outs_before, j));
                        assert(self.last_outputs@[j] == outs_before[j]);
                        lemma_pass_prefix(b0, adj, ord, runs, outs_before, self.last_outputs@, j);
                    }
                    lemma_pass_prefix(b0, adj, ord, runs, outs_before, self.last_outputs@, idx as int);
                    assert(inputs@ == buffers_view(&self.input_buffers)[v as int]);
                    if untouched(ord, idx as int, v as int) {
                        assert(procs_before[v as int] == old(self).processors@[v as int]);
                    }
                    assert(old(self).step_fed(self.last_outputs@, idx as int));
                }
                assert(adj[v as int] == self.adjacency_list@[v as int].deep_view());
                if outs.len() != self.adjacency_list[v].len() {
                    assert(!old(self).step_ok(self.last_outputs@, idx as int));
                    return Err(ProcessFault::WrongArity(v));
                }
                assert(old(self).step_ok(self.last_outputs@, idx as int));
                let ghost bufs_before = buffers_view(&self.input_buffers);
                scatter_into(&mut self.input_buffers, &self.adjacency_list[v], &outs);
                proof {
                    lemma_scatter_shape(bufs_before, self.adjacency_list[v as int].deep_view(), outs@);
                    assert(buffers_view(&self.input_buffers).len() == self.input_buffers.len());
                    assert(self.last_outputs@[idx as int] == outs@);
                    assert(buffers_view(&self.input_buffers) == pass(b0, adj, ord, runs, self.last_outputs@, idx + 1));
                }
            } else {
                self.last_outputs = Ghost(self.last_outputs@.push(Seq::empty()));
                proof {
                    assert forall|w: int| 0 <= w < old(self).processors.len() && #[trigger] untouched(ord, idx + 1, w)
                        implies self.processors@[w] == old(self).processors@[w] by {
                        assert(untouched(ord, idx as int, w));
                    }
                    assert forall|j: int| 0 <= j < idx implies #[trigger] old(self).step_ok(self.last_outputs@, j) by {
                        assert(old(self).step_ok(outs_before, j));
                        assert(self.last_outputs@[j] == outs_before[j]);
                    }
                    assert forall|j: int| 0 <= j < idx implies #[trigger] old(self).step_fed(self.last_outputs@, j) by {
                        assert(old(self).step_fed(outs_before, j));
                        assert(self.last_outputs@[j] == outs_before[j]);
                        lemma_pass_prefix(b0, adj, ord, runs, outs_before, self.last_outputs@, j);
                    }
                    lemma_pass_prefix(b0, adj, ord, runs, outs_before, self.last_outputs@, idx as int);
                    assert(!(0 <= v < runs.len() && runs[v as int]));
                    assert(old(self).step_ok(self.last_outputs@, idx as int));
                    assert(old(self).step_fed(self.last_outputs@, idx as int));
                    assert(buffers_view(&self.input_buffers) == pass(b0, adj, ord, runs, self.last_outputs@, idx + 1));
                }
            }
            idx += 1;
        }
        Ok(self.current_sample())
    }
}

/// Node `v` stands nowhere among the first `k` entries of `order`.
pub open spec fn untouched(order: Seq<usize>, k: int, v: int) -> bool {
    forall|i: int| 0 <= i < k ==> order[i] as int != v
}

impl<P: Processor> Engine<P> {
    /// What applying message `m` to `pre` leaves in `post`. A new processor's
    /// input buffers hold whatever defaults it declared.
    pub open spec fn received(pre: Engine<P>, m: CallbackMessage<P>, post: Engine<P>) -> bool {
        &&& post.wf()
        &&& match m {
            CallbackMessage::Processor(p) => {
                &&& post.processors@ == pre.processors@.push(Some(p))
                &&& buffers_view(&post.input_buffers) == buffers_view(&pre.input_buffers).push(p.declared_inputs())
                &&& post.kind_names@.drop_last() == pre.kind_names@
                &&& post.kind_names@.last()@ == p.kind()
                &&& post.adjacency_list == pre.adjacency_list
                &&& post.topologically_ordered == pre.topologically_ordered
                &&& post.io == pre.io
            },
            CallbackMessage::Connections((adjacency_list, topologically_ordered, io)) => {
                &&& post.adjacency_list == adjacency_list
                &&& post.topologically_ordered == topologically_ordered
                &&& post.io == io
                &&& post.processors == pre.processors
                &&& post.kind_names == pre.kind_names
                &&& post.input_buffers == pre.input_buffers
            },
            CallbackMessage::Constant(constant, value) => {
                &&& buffers_view(&post.input_buffers) == if pre.is_constant(constant as int) {
                    let b = buffers_view(&pre.input_buffers);
                    b.update(constant as int, b[constant as int].update(0, Signal::Sound(value)))
                } else {
                    buffers_view(&pre.input_buffers)
                }
                &&& post.processors == pre.processors
                &&& post.kind_names == pre.kind_names
                &&& post.adjacency_list == pre.adjacency_list
                &&& post.topologically_ordered == pre.topologically_ordered
                &&& post.io == pre.io
            },
            CallbackMessage::ProcessorDeletion(index) => {
                &&& post.processors@ == if index < pre.processors.len() {
                    pre.processors@.update(index as int, None)
                } else {
                    pre.processors@
                }
                &&& post.kind_names == pre.kind_names
                &&& post.input_buffers == pre.input_buffers
                &&& post.adjacency_list == pre.adjacency_list
                &&& post.topologically_ordered == pre.topologically_ordered
                &&& post.io == pre.io
            },
        }
    }

    /// Applies one message from the control side.
    pub fn receive(&mut self, message: CallbackMessage<P>)
        requires
            old(self).wf(),
        ensures
            Self::received(*old(self), message, *final(self)),
    {
        match message {
            CallbackMessage::Processor(p) => self.add_processor(p),
            CallbackMessage::Connections((adjacency_list, topologically_ordered, io)) => {
                self.update_connections(adjacency_list, topologically_ordered, io)
            },
            CallbackMessage::Constant(constant, value) => self.set_constant(constant, value),
            CallbackMessage::ProcessorDeletion(index) => self.remove_processor(index),
        }
    }

    /// One tick: applies the message drained from the control side, if any,
    /// then runs one propagation pass and returns the amplitude bits of the
    /// sink's sample, or the fault that stopped the pass.
    pub fn process(&mut self, message: Option<CallbackMessage<P>>) -> (r: Result<u64, ProcessFault>)
        requires
            old(self).wf(),
        ensures
            match message {
                None => Self::ran(*old(self), *final(self), r),
                Some(m) => exists|mid: Engine<P>| Self::received(*old(self), m, mid) && #[trigger] Self::ran(mid, *final(self), r),
            },
    {
        match message {
            Some(m) => {
                self.receive(m);
                let ghost mid = *self;
                let r = self.run_pass();
                assert(Self::ran(mid, *self, r));
                r
            },
            None => self.run_pass(),
        }
    }
}

/// A pass of `k` steps reads only the outputs of those steps.
proof fn lemma_pass_prefix(
    b: Buffers,
    adj: AdjView,
    order: Seq<usize>,
    runs: Seq<bool>,
    outs1: Seq<Seq<Signal>>,
    outs2: Seq<Seq<Signal>>,
    k: int,
)
    requires
        0 <= k <= outs1.len(),
        k <= outs2.len(),
        forall|j: int| 0 <= j < k ==> outs1[j] == outs2[j],
    ensures
        pass(b, adj, order, runs, outs1, k) == pass(b, adj, order, runs, outs2, k),
    decreases k,
{
    if k > 0 {
        lemma_pass_prefix(b, adj, order, runs, outs1, outs2, k - 1);
    }
}

proof fn lemma_write_targets_at(b: Buffers, targets: Seq<(usize, usize)>, s: Signal, c: usize, i: usize)
    requires
        c < b.len(),
        i < b[c as int].len(),
    ensures
        write_targets(b, targets, s)[c as int][i as int] == if targets.contains((c, i)) {
            s
        } else {
            b[c as int][i as int]
        },
    decreases targets.len(),
{
    if targets.len() > 0 {
        let prefix = targets.drop_last();
        lemma_write_targets_at(b, prefix, s, c, i);
        lemma_write_targets_shape(b, prefix, s);
        if targets.contains((c, i)) && !prefix.contains((c, i)) {
            let k = choose|k: int| 0 <= k < targets.len() && targets[k] == (c, i);
            if k < targets.len() - 1 {
                assert(prefix[k] == (c, i));
            }
        }
        if prefix.contains((c, i)) {
            let k = choose|k: int| 0 <= k < prefix.len() && prefix[k] == (c, i);
            assert(targets[k] == (c, i));
        }
    }
}

/// Output plug `p` of `row` feeds input plug `i` of node `c`.
pub open spec fn feeds(row: Seq<Seq<(usize, usize)>>, p: int, c: usize, i: usize) -> bool {
    0 <= p < row.len() && row[p].contains((c, i))
}

proof fn lemma_scatter_at(b: Buffers, row: Seq<Seq<(usize, usize)>>, outs: Seq<Signal>, c: usize, i: usize, pb: int)
    requires
        c < b.len(),
        i < b[c as int].len(),
        forall|q: int| #[trigger] feeds(row, q, c, i) ==> q == pb,
    ensures
        scatter(b, row, outs)[c as int][i as int] == if feeds(row, pb, c, i) {
            outs[pb]
        } else {
            b[c as int][i as int]
        },
    decreases row.len(),
{
    if row.len() > 0 {
        let p = row.len() - 1;
        let prefix = row.drop_last();
        assert forall|q: int| #[trigger] feeds(prefix, q, c, i) implies q == pb by {
            assert(prefix[q] == row[q]);
            assert(feeds(row, q, c, i));
        }
        lemma_scatter_at(b, prefix, outs, c, i, pb);
        lemma_scatter_shape(b, prefix, outs);
        lemma_write_targets_at(scatter(b, prefix, outs), row[p], outs[p], c, i);
        if feeds(row, p, c, i) {
            assert(p == pb);
        } else if feeds(row, pb, c, i) {
            assert(prefix[pb] == row[pb]);
            assert(feeds(prefix, pb, c, i));
        } else if feeds(prefix, pb, c, i) {
            assert(prefix[pb] == row[pb]);
        }
    }
}

proof fn lemma_pass_shape(b: Buffers, adj: AdjView, order: Seq<usize>, runs: Seq<bool>, outs: Seq<Seq<Signal>>, k: int)
    ensures
        pass(b, adj, order, runs, outs, k).len() == b.len(),
        forall|n: int| 0 <= n < b.len() ==> #[trigger] pass(b, adj, order, runs, outs, k)[n].len() == b[n].len(),
    decreases k,
{
    if k > 0 {
        lemma_pass_shape(b, adj, order, runs, outs, k - 1);
        let v = order[k - 1] as int;
        if 0 <= v < runs.len() && runs[v] {
            lemma_scatter_shape(pass(b, adj, order, runs, outs, k - 1), adj[v], outs[k - 1]);
        }
    }
}

/// Of several writes to one input plug during a pass, the last one stays.
/// When the running node at step `jb` of the order feeds input plug `i` of
/// node `c` from its output plug `pb` alone, and no running node after it
/// feeds that plug, then after the pass the plug holds that node's output,
/// whatever any earlier producer wrote there.
pub proof fn lemma_last_write_wins(
    b: Buffers,
    adj: AdjView,
    order: Seq<usize>,
    runs: Seq<bool>,
    outs: Seq<Seq<Signal>>,
    jb: int,
    pb: int,
    c: usize,
    i: usize,
)
    requires
        0 <= jb < order.len(),
        (order[jb] as int) < runs.len(),
        runs[order[jb] as int],
        feeds(adj[order[jb] as int], pb, c, i),
        forall|q: int| #[trigger] feeds(adj[order[jb] as int], q, c, i) ==> q == pb,
        forall|j: int, q: int|
            jb < j < order.len() && (order[j] as int) < runs.len() && runs[order[j] as int]
                ==> !#[trigger] feeds(adj[order[j] as int], q, c, i),
        c < b.len(),
        i < b[c as int].len(),
    ensures
        pass(b, adj, order, runs, outs, order.len() as int)[c as int][i as int] == outs[jb][pb],
{
    lemma_pass_keeps_write(b, adj, order, runs, outs, jb, pb, c, i, order.len() as int);
}

proof fn lemma_pass_keeps_write(
    b: Buffers,
    adj: AdjView,
    order: Seq<usize>,
    runs: Seq<bool>,
    outs: Seq<Seq<Signal>>,
    jb: int,
    pb: int,
    c: usize,
    i: usize,
    k: int,
)
    requires
        0 <= jb < k <= order.len(),
        (order[jb] as int) < runs.len(),
        runs[order[jb] as int],
        feeds(adj[order[jb] as int], pb, c, i),
        forall|q: int| #[trigger] feeds(adj[order[jb] as int], q, c, i) ==> q == pb,
        forall|j: int, q: int|
            jb < j < order.len() && (order[j] as int) < runs.len() && runs[order[j] as int]
                ==> !#[trigger] feeds(adj[order[j] as int], q, c, i),
        c < b.len(),
        i < b[c as int].len(),
    ensures
        pass(b, adj, order, runs, outs, k)[c as int][i as int] == outs[jb][pb],
    decreases k,
{
    let prev = pass(b, adj, order, runs, outs, k - 1);
    lemma_pass_shape(b, adj, order, runs, outs, k - 1);
    let v = order[k - 1] as int;
    if k - 1 == jb {
        lemma_scatter_at(prev, adj[v], outs[k - 1], c, i, pb);
    } else {
        lemma_pass_keeps_write(b, adj, order, runs, outs, jb, pb, c, i, k - 1);
        if 0 <= v < runs.len() && runs[v] {
            assert forall|q: int| #[trigger] feeds(adj[v], q, c, i) implies q == pb by {
                assert(!feeds(adj[order[k - 1] as int], q, c, i));
            }
            assert(!feeds(adj[v], pb, c, i));
            lemma_scatter_at(prev, adj[v], outs[k - 1], c, i, pb);
        }
    }
}

} // verus!
