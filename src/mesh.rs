use vstd::prelude::*;
use crate::engine::{buffers_view, copy_row, CallbackMessage, Engine, ProcessFault};
use crate::processor::Processor;
use crate::signal::Signal;
use crate::topology::{
    has_cycle, has_edge, is_path, is_topo_order, topo_view, lemma_order_excludes_cycle, topological_order, AdjList, AdjView,
    TopoList,
};

verus! {

/// The sink nodes, by index.
pub type IoList = Vec<usize>;

/// What a processor declared when it was registered: its input plugs with
/// their defaults, its output plugs, and its kind name.
pub type Declaration = (Vec<Signal>, Vec<Signal>, String);

/// A deep copy of fan-out lists.
pub fn adj_clone(input: &AdjList) -> (r: AdjList)
    ensures
        r.deep_view() == input.deep_view(),
{
    let mut clone: AdjList = Vec::new();
    let mut i: usize = 0;
    while i < input.len()
        invariant
            i <= input.len(),
            clone@.len() == i,
            forall|x: int| 0 <= x < i ==> #[trigger] clone@[x].deep_view() == input@[x].deep_view(),
        decreases input.len() - i,
    {
        let row = &input[i];
        let mut i_vec: Vec<Vec<(usize, usize)>> = Vec::new();
        let mut j: usize = 0;
        while j < row.len()
            invariant
                j <= row.len(),
                i_vec@.len() == j,
                forall|y: int| 0 <= y < j ==> #[trigger] i_vec@[y]@ == row@[y]@,
            decreases row.len() - j,
        {
            let plug = &row[j];
            let mut j_vec: Vec<(usize, usize)> = Vec::new();
            let mut k: usize = 0;
            while k < plug.len()
                invariant
                    k <= plug.len(),
                    j_vec@ == plug@.subrange(0, k as int),
                decreases plug.len() - k,
            {
                j_vec.push((plug[k].0, plug[k].1));
                k += 1;
                assert(j_vec@ =~= plug@.subrange(0, k as int));
            }
            assert(j_vec@ =~= plug@);
            i_vec.push(j_vec);
            j += 1;
        }
        assert(i_vec.deep_view() =~= row.deep_view()) by {
            assert forall|y: int| 0 <= y < j implies #[trigger] i_vec.deep_view()[y] == row.deep_view()[y] by {
                assert(i_vec@[y]@ == row@[y]@);
                assert(i_vec@[y].deep_view() =~= row@[y].deep_view());
            }
        }
        clone.push(i_vec);
        i += 1;
    }
    assert(clone.deep_view() =~= input.deep_view()) by {
        assert forall|x: int| 0 <= x < i implies #[trigger] clone.deep_view()[x] == input.deep_view()[x] by {
            assert(clone@[x].deep_view() == input@[x].deep_view());
        }
    }
    clone
}

/// A copy of a topological order, or `None` for `None`.
pub fn topo_clone(input: &TopoList) -> (r: TopoList)
    ensures
        topo_view(r) == topo_view(*input),
{
    match input {
        Some(a) => Some(io_clone(a)),
        None => None,
    }
}

/// A copy of a list of node indices.
pub fn io_clone(input: &IoList) -> (r: IoList)
    ensures
        r@ == input@,
{
    let mut out: Vec<usize> = Vec::new();
    let mut i: usize = 0;
    while i < input.len()
        invariant
            i <= input.len(),
            out@ == input@.subrange(0, i as int),
        decreases input.len() - i,
    {
        out.push(input[i]);
        i += 1;
        assert(out@ =~= input@.subrange(0, i as int));
    }
    assert(out@ =~= input@);
    out
}

/// Whether `other` occurs in `list`.
pub fn contains(list: &Vec<usize>, other: &usize) -> (r: bool)
    ensures
        r == list@.contains(*other),
{
    let mut i: usize = 0;
    while i < list.len()
        invariant
            i <= list.len(),
            forall|j: int| 0 <= j < i ==> list@[j] != *other,
        decreases list.len() - i,
    {
        if list[i] == *other {
            return true;
        }
        i += 1;
    }
    false
}

/// Output plug `p` of node `u` and input plug `i` of node `v` exist and carry
/// the same kind of signal.
pub open spec fn edge_typed(types: Seq<Declaration>, u: int, p: int, v: int, i: int) -> bool {
    &&& 0 <= u < types.len()
    &&& 0 <= p < types[u].1.len()
    &&& 0 <= v < types.len()
    &&& 0 <= i < types[v].0.len()
    &&& types[u].1@[p].kind_of() == types[v].0@[i].kind_of()
}

/// Every edge joins two existing plugs of the same kind.
pub open spec fn well_typed(types: Seq<Declaration>, adj: AdjView) -> bool {
    forall|u: int, p: int, k: int|
        0 <= u < adj.len() && 0 <= p < adj[u].len() && 0 <= k < adj[u][p].len()
            ==> edge_typed(types, u, p, #[trigger] adj[u][p][k].0 as int, adj[u][p][k].1 as int)
}

/// Every node listed in `ios` exists and is named as a sink.
pub open spec fn sinks_named(types: Seq<Declaration>, ios: Seq<usize>) -> bool {
    forall|j: int| #![trigger ios[j]] 0 <= j < ios.len() ==> ios[j] < types.len() && types[ios[j] as int].2@ == "Dac"@
}

/// The order held for `adj`: a topological order when there is no cycle,
/// `None` when there is one.
pub open spec fn order_fits(adj: AdjView, order: TopoList) -> bool {
    &&& (order is Some <==> !has_cycle(adj))
    &&& (order matches Some(s) ==> is_topo_order(adj, s@))
}

/// The control side: the registry of processor declarations, the graph of
/// plug-to-plug connections, and the order it is run in. Messages for the
/// engine queue up in `pending` until they are taken.
pub struct Mesh<P> {
    pub processor_types: Vec<Declaration>,
    /// The declared defaults of every input plug.
    pub input_buffers: Vec<Vec<Signal>>,
    /// `[out_processor][out_plug][connection]` is `(in_processor, in_plug)`.
    pub adjacency_list: AdjList,
    pub topologically_ordered: TopoList,
    pub ios: IoList,
    pub pending: Vec<CallbackMessage<P>>,
}

impl<P: Processor> Mesh<P> {
    pub open spec fn adjacency(&self) -> AdjView {
        self.adjacency_list.deep_view()
    }

    pub open spec fn sinks(&self) -> Seq<usize> {
        self.ios@
    }

    /// Nodes are indexed alike in every table; each has one fan-out list per
    /// declared output plug; every edge is well typed; the sinks are nodes
    /// named as sinks; and the order fits the graph.
    pub open spec fn wf(&self) -> bool {
        let types = self.processor_types@;
        &&& self.adjacency().len() == types.len()
        &&& self.input_buffers.len() == types.len()
        &&& forall|u: int| 0 <= u < types.len() ==> #[trigger] self.adjacency()[u].len() == types[u].1.len()
        &&& well_typed(types, self.adjacency())
        &&& sinks_named(types, self.sinks())
        &&& order_fits(self.adjacency(), self.topologically_ordered)
    }

    pub fn new() -> (r: Mesh<P>)
        ensures
            r.wf(),
            r.processor_types.len() == 0,
            r.adjacency().len() == 0,
            r.sinks().len() == 0,
            r.pending@.len() == 0,
            r.topologically_ordered matches Some(s) && s.len() == 0,
    {
        let r = Mesh {
            processor_types: Vec::new(),
            input_buffers: Vec::new(),
            adjacency_list: Vec::new(),
            topologically_ordered: Some(Vec::new()),
            ios: Vec::new(),
            pending: Vec::new(),
        };
        proof {
            let s: Seq<usize> = Seq::empty();
            assert(is_topo_order(r.adjacency(), s));
            lemma_order_excludes_cycle(r.adjacency(), s);
        }
        r
    }

    /// Checks every edge of the graph: both plugs exist and carry the same
    /// kind of signal.
    fn check_types(&self) -> (r: bool)
        requires
            self.processor_types.len() == self.adjacency().len(),
        ensures
            r == well_typed(self.processor_types@, self.adjacency()),
    {
        let ghost g = self.adjacency();
        let ghost types = self.processor_types@;
        let mut u: usize = 0;
        while u < self.adjacency_list.len()
            invariant
                g == self.adjacency(),
                types == self.processor_types@,
                types.len() == g.len(),
                u <= g.len(),
                forall|w: int, p: int, k: int|
                    0 <= w < u && 0 <= p < g[w].len() && 0 <= k < g[w][p].len()
                        ==> edge_typed(types, w, p, #[trigger] g[w][p][k].0 as int, g[w][p][k].1 as int),
            decreases g.len() - u,
        {
            let row = &self.adjacency_list[u];
            let mut p: usize = 0;
            while p < row.len()
                invariant
                    g == self.adjacency(),
                    types == self.processor_types@,
                    types.len() == g.len(),
                    u < g.len(),
                    row == self.adjacency_list@[u as int],
                    p <= row.len(),
                    forall|w: int, q: int, k: int|
                        0 <= w < u && 0 <= q < g[w].len() && 0 <= k < g[w][q].len()
                            ==> edge_typed(types, w, q, #[trigger] g[w][q][k].0 as int, g[w][q][k].1 as int),
                    forall|q: int, k: int|
                        0 <= q < p && 0 <= k < g[u as int][q].len()
                            ==> edge_typed(types, u as int, q, #[trigger] g[u as int][q][k].0 as int, g[u as int][q][k].1 as int),
                decreases row.len() - p,
            {
                let plug = &row[p];
                let mut k: usize = 0;
                while k < plug.len()
                    invariant
                        g == self.adjacency(),
                        types == self.processor_types@,
                        types.len() == g.len(),
                        u < g.len(),
                        row == self.adjacency_list@[u as int],
                        p < row.len(),
                        plug == row@[p as int],
                        k <= plug.len(),
                        forall|w: int, q: int, j: int|
                            0 <= w < u && 0 <= q < g[w].len() && 0 <= j < g[w][q].len()
                                ==> edge_typed(types, w, q, #[trigger] g[w][q][j].0 as int, g[w][q][j].1 as int),
                        forall|q: int, j: int|
                            0 <= q < p && 0 <= j < g[u as int][q].len()
                                ==> edge_typed(types, u as int, q, #[trigger] g[u as int][q][j].0 as int, g[u as int][q][j].1 as int),
                        forall|j: int|
                            0 <= j < k ==> edge_typed(types, u as int, p as int, #[trigger] g[u as int][p as int][j].0 as int, g[u as int][p as int][j].1 as int),
                    decreases plug.len() - k,
                {
                    let (v, i) = plug[k];
                    assert(g[u as int][p as int][k as int] == (v, i));
                    let ok = u < self.processor_types.len() && p < self.processor_types[u].1.len()
                        && v < self.processor_types.len() && i < self.processor_types[v].0.len()
                        && self.processor_types[u].1[p].same_kind(&self.processor_types[v].0[i]);
                    if !ok {
                        assert(!edge_typed(types, u as int, p as int, v as int, i as int));
                        return false;
                    }
                    k += 1;
                }
                p += 1;
            }
            u += 1;
        }
        true
    }

    /// Recomputes the order of the graph.
    pub fn order_topologically(&mut self)
        ensures
            order_fits(final(self).adjacency(), final(self).topologically_ordered),
            final(self).processor_types == old(self).processor_types,
            final(self).input_buffers == old(self).input_buffers,
            final(self).adjacency_list == old(self).adjacency_list,
            final(self).ios == old(self).ios,
            final(self).pending == old(self).pending,
    {
        self.topologically_ordered = topological_order(&self.adjacency_list);
    }

    /// `post` is `pre` with `processor` as one more node: its declaration `d`
    /// is recorded last, it has one empty fan-out list per output plug, its
    /// declared defaults as input buffers, and it is listed as a sink if its
    /// kind is `Dac`.
    pub open spec fn registered(pre: Mesh<P>, post: Mesh<P>, processor: P) -> bool {
        let d = post.processor_types@.last();
        &&& post.processor_types@.len() == pre.processor_types@.len() + 1
        &&& post.processor_types@.drop_last() == pre.processor_types@
        &&& d.0@ == processor.declared_inputs()
        &&& d.1@ == processor.declared_outputs()
        &&& d.2@ == processor.kind()
        &&& post.adjacency() == pre.adjacency().push(
            Seq::new(d.1.len() as nat, |p: int| Seq::<(usize, usize)>::empty()),
        )
        &&& buffers_view(&post.input_buffers) == buffers_view(&pre.input_buffers).push(d.0@)
        &&& post.sinks() == if d.2@ == "Dac"@ {
            pre.sinks().push(pre.processor_types.len() as usize)
        } else {
            pre.sinks()
        }
    }

    /// Registers a processor as the next node: records its declaration,
    /// gives it one empty fan-out list per output plug and its declared
    /// defaults as input buffers, lists it as a sink if it is named `Dac`, and
    /// recomputes the order. The processor is handed back.
    pub fn register_processor(&mut self, processor: P) -> (r: P)
        requires
            old(self).wf(),
        ensures
            final(self).wf(),
            r == processor,
            Self::registered(*old(self), *final(self), processor),
            final(self).pending == old(self).pending,
    {
        let inputs = processor.input_types_and_defaults();
        let outputs = processor.output_types();
        let name = processor.kind_name();
        let mut row: Vec<Vec<(usize, usize)>> = Vec::new();
        let mut i: usize = 0;
        while i < outputs.len()
            invariant
                i <= outputs.len(),
                row@.len() == i,
                forall|y: int| 0 <= y < i ==> (#[trigger] row@[y])@.len() == 0,
            decreases outputs.len() - i,
        {
            row.push(Vec::new());
            i += 1;
        }
        assert(row.deep_view() =~~= Seq::new(i as nat, |p: int| Seq::<(usize, usize)>::empty())) by {
            assert forall|y: int| 0 <= y < i implies #[trigger] row.deep_view()[y] =~= Seq::<(usize, usize)>::empty() by {
                assert(row@[y]@.len() == 0);
            }
        }
        let ghost g = self.adjacency();
        let ghost types = self.processor_types@;
        let index = self.adjacency_list.len();
        self.adjacency_list.push(row);
        self.input_buffers.push(copy_row(&inputs));
        let marker = "Dac".to_owned();
        if name == marker {
            self.ios.push(index);
        }
        self.processor_types.push((inputs, outputs, name));
        proof {
            let h = self.adjacency();
            let t = self.processor_types@;
            assert(h =~~= g.push(row.deep_view()));
            assert(buffers_view(&self.input_buffers) =~= buffers_view(&old(self).input_buffers).push(inputs@));
            assert(t.drop_last() =~= types);
            assert forall|u: int, p: int, k: int|
                0 <= u < h.len() && 0 <= p < h[u].len() && 0 <= k < h[u][p].len()
                    implies edge_typed(t, u, p, #[trigger] h[u][p][k].0 as int, h[u][p][k].1 as int) by {
                assert(u < g.len());
                assert(h[u][p][k] == g[u][p][k]);
                assert(edge_typed(types, u, p, g[u][p][k].0 as int, g[u][p][k].1 as int));
            }
            assert forall|u: int| 0 <= u < t.len() implies #[trigger] h[u].len() == t[u].1.len() by {
                if u < g.len() {
                    assert(t[u] == types[u]);
                }
            }
            assert(sinks_named(t, self.sinks()));
        }
        self.order_topologically();
        processor
    }

    /// Wires output plug `output.1` of node `output.0` to input plug `input.1`
    /// of node `input.0`. The edge is kept, and the order recomputed, if both
    /// plugs exist and carry the same kind of signal; otherwise nothing
    /// changes. Success does not depend on whether the graph stays acyclic:
    /// the order says that.
    pub fn connect(&mut self, output: (usize, usize), input: (usize, usize)) -> (r: bool)
        requires
            old(self).wf(),
        ensures
            final(self).wf(),
            r == edge_typed(old(self).processor_types@, output.0 as int, output.1 as int, input.0 as int, input.1 as int),
            final(self).adjacency() == if r {
                with_edge(old(self).adjacency(), output, input)
            } else {
                old(self).adjacency()
            },
            !r ==> final(self).topologically_ordered == old(self).topologically_ordered,
            final(self).processor_types == old(self).processor_types,
            final(self).input_buffers == old(self).input_buffers,
            final(self).ios == old(self).ios,
            final(self).pending == old(self).pending,
    {
        if output.0 >= self.adjacency_list.len() {
            return false;
        }
        assert(self.adjacency()[output.0 as int].len() == self.adjacency_list@[output.0 as int].len());
        if output.1 >= self.adjacency_list[output.0].len() {
            return false;
        }
        let ghost g = self.adjacency();
        self.adjacency_list[output.0][output.1].push(input);
        proof {
            assert(self.adjacency() =~~= with_edge(g, output, input));
            let h = self.adjacency();
            let types = self.processor_types@;
            if edge_typed(types, output.0 as int, output.1 as int, input.0 as int, input.1 as int) {
                assert forall|u: int, p: int, k: int|
                    0 <= u < h.len() && 0 <= p < h[u].len() && 0 <= k < h[u][p].len()
                        implies edge_typed(types, u, p, #[trigger] h[u][p][k].0 as int, h[u][p][k].1 as int) by {
                    if u == output.0 && p == output.1 && k == g[u][p].len() {
                    } else {
                        assert(h[u][p][k] == g[u][p][k]);
                    }
                }
            } else {
                let k = g[output.0 as int][output.1 as int].len() as int;
                assert(h[output.0 as int][output.1 as int][k] == input);
            }
        }
        if self.check_types() {
            self.order_topologically();
            proof {
                let h = self.adjacency();
                assert(forall|u: int| 0 <= u < h.len() ==> #[trigger] h[u].len() == g[u].len());
                assert(well_typed(self.processor_types@, h));
            }
            true
        } else {
            self.adjacency_list[output.0][output.1].pop();
            proof {
                assert(self.adjacency() =~~= g);
            }
            false
        }
    }

    /// `m` is a snapshot of this graph, order and sink list.
    pub open spec fn is_snapshot(m: CallbackMessage<P>, adj: AdjView, order: Option<Seq<usize>>, ios: Seq<usize>) -> bool {
        match m {
            CallbackMessage::Connections((a, o, i)) => a.deep_view() == adj && topo_view(o) == order && i@ == ios,
            _ => false,
        }
    }

    /// Connects output plug `from_plug` of node `from_proc` to input plug
    /// `to_plug` of node `to_proc`, as `connect` does. If the edge is kept, a
    /// snapshot of the graph, its order (`None` if the edge closed a cycle)
    /// and its sinks is queued for the engine.
    pub fn new_connection(&mut self, from_proc: usize, from_plug: usize, to_proc: usize, to_plug: usize) -> (r: bool)
        requires
            old(self).wf(),
        ensures
            final(self).wf(),
            r == edge_typed(old(self).processor_types@, from_proc as int, from_plug as int, to_proc as int, to_plug as int),
            final(self).adjacency() == if r {
                with_edge(old(self).adjacency(), (from_proc, from_plug), (to_proc, to_plug))
            } else {
                old(self).adjacency()
            },
            !r ==> final(self).topologically_ordered == old(self).topologically_ordered,
            r ==> final(self).pending@.drop_last() == old(self).pending@ && final(self).pending@.len() > 0
                && Self::is_snapshot(
                    final(self).pending@.last(),
                    final(self).adjacency(),
                    topo_view(final(self).topologically_ordered),
                    final(self).sinks(),
                ),
            !r ==> final(self).pending == old(self).pending,
            final(self).processor_types == old(self).processor_types,
            final(self).input_buffers == old(self).input_buffers,
            final(self).ios == old(self).ios,
    {
        if !self.connect((from_proc, from_plug), (to_proc, to_plug)) {
            return false;
        }
        let order = topo_clone(&self.topologically_ordered);
        let message = CallbackMessage::Connections((adj_clone(&self.adjacency_list), order, io_clone(&self.ios)));
        self.pending.push(message);
        true
    }

    /// Queues a new value, as amplitude bits, for the input of constant node
    /// `index`.
    pub fn set_constant(&mut self, index: usize, value: u64)
        ensures
            final(self).pending@ == old(self).pending@.push(CallbackMessage::Constant(index, value)),
            final(self).processor_types == old(self).processor_types,
            final(self).input_buffers == old(self).input_buffers,
            final(self).adjacency_list == old(self).adjacency_list,
            final(self).topologically_ordered == old(self).topologically_ordered,
            final(self).ios == old(self).ios,
    {
        self.pending.push(CallbackMessage::Constant(index, value));
    }

    /// Registers a processor and queues it for the engine.
    pub fn new_processor(&mut self, processor: P)
        requires
            old(self).wf(),
        ensures
            final(self).wf(),
            Self::registered(*old(self), *final(self), processor),
            final(self).pending@ == old(self).pending@.push(CallbackMessage::Processor(processor)),
    {
        let processor = self.register_processor(processor);
        self.pending.push(CallbackMessage::Processor(processor));
    }

    /// Queues the replacement of node `processor` by the inert placeholder.
    pub fn delete_processor(&mut self, processor: usize)
        ensures
            final(self).pending@ == old(self).pending@.push(CallbackMessage::ProcessorDeletion(processor)),
            final(self).processor_types == old(self).processor_types,
            final(self).input_buffers == old(self).input_buffers,
            final(self).adjacency_list == old(self).adjacency_list,
            final(self).topologically_ordered == old(self).topologically_ordered,
            final(self).ios == old(self).ios,
    {
        self.pending.push(CallbackMessage::ProcessorDeletion(processor));
    }

    /// Hands out the queued messages, oldest first, and empties the queue.
    pub fn take_messages(&mut self) -> (r: Vec<CallbackMessage<P>>)
        ensures
            r@ == old(self).pending@,
            final(self).pending@.len() == 0,
            final(self).processor_types == old(self).processor_types,
            final(self).input_buffers == old(self).input_buffers,
            final(self).adjacency_list == old(self).adjacency_list,
            final(self).topologically_ordered == old(self).topologically_ordered,
            final(self).ios == old(self).ios,
    {
        let mut taken: Vec<CallbackMessage<P>> = Vec::new();
        std::mem::swap(&mut self.pending, &mut taken);
        taken
    }
}

/// `adj` with one more edge, from output plug `output.1` of node `output.0`
/// to `input`, placed last among that plug's targets.
pub open spec fn with_edge(adj: AdjView, output: (usize, usize), input: (usize, usize)) -> AdjView {
    let (u, p) = (output.0 as int, output.1 as int);
    adj.update(u, adj[u].update(p, adj[u][p].push(input)))
}

/// `adj` with the last target of output plug `output.1` of node `output.0`
/// taken away.
pub open spec fn without_last_edge(adj: AdjView, output: (usize, usize)) -> AdjView {
    let (u, p) = (output.0 as int, output.1 as int);
    adj.update(u, adj[u].update(p, adj[u][p].drop_last()))
}

proof fn lemma_edge_kept(adj: AdjView, output: (usize, usize), input: (usize, usize), a: int, b: int)
    requires
        output.0 < adj.len(),
        output.1 < adj[output.0 as int].len(),
        has_edge(adj, a, b),
    ensures
        has_edge(with_edge(adj, output, input), a, b),
{
    let h = with_edge(adj, output, input);
    let (p, k) = choose|p: int, k: int| 0 <= p < adj[a].len() && 0 <= k < adj[a][p].len() && #[trigger] adj[a][p][k].0 == b;
    assert(h[a][p][k] == adj[a][p][k]);
}

impl<P: Processor> Mesh<P> {
    /// An edge that closes a cycle takes the order away: if the graph had an
    /// order and a path leads from the new edge's target back to its source,
    /// the graph with the edge has no order. Taking that edge away again
    /// gives back the earlier graph, which has no cycle.
    pub proof fn lemma_closing_edge(pre: Mesh<P>, post: Mesh<P>, output: (usize, usize), input: (usize, usize), w: Seq<int>)
        requires
            pre.wf(),
            post.wf(),
            pre.topologically_ordered is Some,
            output.0 < pre.adjacency().len(),
            output.1 < pre.adjacency()[output.0 as int].len(),
            post.adjacency() == with_edge(pre.adjacency(), output, input),
            w.len() >= 1,
            w[0] == input.0 as int,
            w[w.len() - 1] == output.0 as int,
            is_path(pre.adjacency(), w),
        ensures
            post.topologically_ordered is None,
            without_last_edge(post.adjacency(), output) == pre.adjacency(),
            !has_cycle(without_last_edge(post.adjacency(), output)),
    {
        let g = pre.adjacency();
        let h = post.adjacency();
        let c = seq![output.0 as int].add(w);
        let k = g[output.0 as int][output.1 as int].len() as int;
        assert(h[output.0 as int][output.1 as int][k] == input);
        assert(has_edge(h, output.0 as int, input.0 as int));
        assert forall|j: int| #![trigger c[j]] 0 <= j < c.len() - 1 implies has_edge(h, c[j], c[j + 1]) by {
            if j > 0 {
                assert(c[j] == w[j - 1]);
                assert(c[j + 1] == w[j]);
                assert(has_edge(g, w[j - 1], w[j]));
                lemma_edge_kept(g, output, input, w[j - 1], w[j]);
            }
        }
        assert(is_path(h, c));
        assert(without_last_edge(h, output) =~~= g);
    }

    /// A graph without edges has an order, which holds every node exactly
    /// once.
    pub proof fn lemma_unwired_ordered(m: Mesh<P>)
        requires
            m.wf(),
            forall|u: int, p: int| 0 <= u < m.adjacency().len() && 0 <= p < m.adjacency()[u].len()
                ==> #[trigger] m.adjacency()[u][p].len() == 0,
        ensures
            m.topologically_ordered matches Some(s) && is_topo_order(m.adjacency(), s@),
    {
        let g = m.adjacency();
        if has_cycle(g) {
            let w = choose|w: Seq<int>| #![trigger is_path(g, w)] w.len() >= 2 && w[0] == w[w.len() - 1] && is_path(g, w);
            assert(has_edge(g, w[0], w[1]));
            let (p, k) = choose|p: int, k: int|
                0 <= p < g[w[0]].len() && 0 <= k < g[w[0]][p].len() && #[trigger] g[w[0]][p][k].0 == w[1];
            assert(g[w[0]][p].len() == 0);
        }
    }

    /// A snapshot is taken whole: after the tick that drains it, the engine
    /// holds exactly the snapshot's graph, order and sinks, and the pass of
    /// that tick ran on them, from the processors and buffers held before.
    pub proof fn lemma_snapshot_taken_whole(
        m: Mesh<P>,
        order: Option<Seq<usize>>,
        message: CallbackMessage<P>,
        pre: Engine<P>,
        post: Engine<P>,
        r: Result<u64, ProcessFault>,
    )
        requires
            Self::is_snapshot(message, m.adjacency(), order, m.sinks()),
            exists|mid: Engine<P>| Engine::received(pre, message, mid) && #[trigger] Engine::ran(mid, post, r),
        ensures
            post.adjacency_list.deep_view() == m.adjacency(),
            topo_view(post.topologically_ordered) == order,
            post.io@ == m.sinks(),
            exists|mid: Engine<P>| {
                &&& #[trigger] Engine::ran(mid, post, r)
                &&& mid.adjacency_list.deep_view() == m.adjacency()
                &&& topo_view(mid.topologically_ordered) == order
                &&& mid.io@ == m.sinks()
                &&& mid.processors == pre.processors
                &&& mid.input_buffers == pre.input_buffers
            },
    {
        let mid = choose|mid: Engine<P>| Engine::received(pre, message, mid) && #[trigger] Engine::ran(mid, post, r);
        assert(Engine::ran(mid, post, r));
    }
}

} // verus!
