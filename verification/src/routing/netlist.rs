//! Netlists over the nodes of a routing graph: for each driving node, the
//! nodes that belong with it.

use vstd::prelude::*;

verus! {

/// One net: the node that drives it and the nodes that belong to it, in the
/// order in which they were added. In a netlist to be routed these are the
/// sinks that the source drives; in a routed netlist they are all the nodes
/// that the route occupies.
#[derive(Debug)]
pub struct Net {
    pub source: usize,
    pub sinks: Vec<usize>,
}

/// A netlist: nets in the order in which their sources were first named. One
/// that `new` and `insert` have made is well formed: no two of its nets have
/// the same source, and no net holds a node twice.
#[derive(Debug)]
pub struct RoutingNetList {
    nets: Vec<Net>,
}

/// `tree` with `node` added at its end, unless the tree holds it already.
pub open spec fn with_node(tree: Seq<usize>, node: usize) -> Seq<usize> {
    if tree.contains(node) {
        tree
    } else {
        tree.push(node)
    }
}

/// Whether one of `nets` has the source `source`.
pub open spec fn has_source(nets: Seq<(usize, Seq<usize>)>, source: usize) -> bool {
    exists|i: int| 0 <= i < nets.len() && (#[trigger] nets[i]).0 == source
}

/// `nets` after `sink` has been added to the net that `source` drives: the
/// sink is added to that net as `with_node` adds it, and where no net has
/// that source, a net of the source and the sink is added at the end.
pub open spec fn net_insert(nets: Seq<(usize, Seq<usize>)>, source: usize, sink: usize) -> Seq<
    (usize, Seq<usize>),
> {
    if has_source(nets, source) {
        let i = choose|i: int| 0 <= i < nets.len() && (#[trigger] nets[i]).0 == source;
        nets.update(i, (source, with_node(nets[i].1, sink)))
    } else {
        nets.push((source, seq![sink]))
    }
}

/// The sources of `nets`, in order.
pub open spec fn net_sources(nets: Seq<Net>) -> Seq<usize> {
    Seq::new(nets.len(), |i: int| nets[i].source)
}

impl View for Net {
    type V = (usize, Seq<usize>);

    /// The source of the net, and its nodes in order.
    open spec fn view(&self) -> (usize, Seq<usize>) {
        (self.source, self.sinks@)
    }
}

impl View for RoutingNetList {
    type V = Seq<(usize, Seq<usize>)>;

    /// The nets in order, each as its source and its nodes.
    open spec fn view(&self) -> Seq<(usize, Seq<usize>)> {
        Seq::new(self.nets().len(), |i: int| self.nets()[i]@)
    }
}

impl RoutingNetList {
    /// The nets, in order.
    pub closed spec fn nets(&self) -> Seq<Net> {
        self.nets@
    }

    /// The sources of the nets, in order.
    pub open spec fn sources(&self) -> Seq<usize> {
        net_sources(self.nets())
    }

    /// The nodes of net number `i`, in order.
    pub open spec fn sinks(&self, i: int) -> Seq<usize> {
        self.nets()[i].sinks@
    }

    /// No source occurs twice, and no net holds a node twice.
    pub open spec fn well_formed(&self) -> bool {
        &&& self.sources().no_duplicates()
        &&& forall|i: int| 0 <= i < self.nets().len() ==> (#[trigger] self.sinks(i)).no_duplicates()
    }

    /// Every node that the netlist names is one of the first `node_count`
    /// nodes.
    pub open spec fn within(&self, node_count: nat) -> bool {
        forall|i: int|
            0 <= i < self.nets().len() ==> (#[trigger] self.nets()[i]).source < node_count
                && forall|j: int|
                0 <= j < self.sinks(i).len() ==> (#[trigger] self.sinks(i)[j]) < node_count
    }

    /// A netlist without nets.
    pub fn new() -> (netlist: Self)
        ensures
            netlist.nets().len() == 0,
            netlist.well_formed(),
    {
        RoutingNetList { nets: Vec::new() }
    }

    /// The number of nets.
    pub fn len(&self) -> (count: usize)
        ensures
            count == self.nets().len(),
    {
        self.nets.len()
    }

    /// Net number `index`.
    pub fn net(&self, index: usize) -> (net: &Net)
        requires
            index < self.nets().len(),
        ensures
            *net == self.nets()[index as int],
            net.sinks@ == self.sinks(index as int),
    {
        &self.nets[index]
    }

    /// The place of the net that `source` drives, if there is one.
    pub fn position(&self, source: usize) -> (found: Option<usize>)
        ensures
            match found {
                Some(index) => index < self.nets().len() && self.nets()[index as int].source
                    == source,
                None => !self.sources().contains(source),
            },
    {
        let mut index: usize = 0;
        while index < self.nets.len()
            invariant
                index <= self.nets@.len(),
                forall|i: int| 0 <= i < index ==> self.nets@[i].source != source,
            decreases self.nets@.len() - index,
        {
            if self.nets[index].source == source {
                return Some(index);
            }
            index += 1;
        }
        proof {
            assert forall|i: int| 0 <= i < self.sources().len() implies self.sources()[i]
                != source by {}
        }
        None
    }

    /// Adds a whole net at the end of the netlist.
    pub fn push_net(&mut self, source: usize, nodes: Vec<usize>)
        requires
            old(self).well_formed(),
            !old(self).sources().contains(source),
            nodes@.no_duplicates(),
        ensures
            final(self).well_formed(),
            final(self)@ == old(self)@.push((source, nodes@)),
    {
        let ghost before = self.nets@;
        self.nets.push(Net { source, sinks: nodes });
        proof {
            assert(net_sources(self.nets@) =~= net_sources(before).push(source));
            assert forall|i: int| 0 <= i < before.len() implies before[i].source != source by {
                assert(old(self).sources()[i] == before[i].source);
            }
            assert forall|i: int| 0 <= i < self.nets@.len() implies (
            #[trigger] self.sinks(i)).no_duplicates() by {
                if i < before.len() {
                    assert(old(self).sinks(i).no_duplicates());
                }
            }
            assert(self@ =~= old(self)@.push((source, nodes@)));
        }
    }

    /// Adds `sink` to the net that `source` drives, and begins that net if
    /// there is none yet. A sink that the net already holds is not added
    /// again.
    pub fn insert(&mut self, source: usize, sink: usize)
        requires
            old(self).well_formed(),
        ensures
            final(self).well_formed(),
            final(self)@ == net_insert(old(self)@, source, sink),
            forall|node_count: nat|
                old(self).within(node_count) && source < node_count && sink < node_count
                    ==> #[trigger] final(self).within(node_count),
    {
        let ghost begun = self.nets@;
        match self.position(source) {
            Some(index) => {
                let ghost before = self.nets@;
                proof {
                    assert(self.sources()[index as int] == source);
                    assert forall|i: int| 0 <= i < before.len() && i != index implies before[i].source
                        != source by {
                        assert(self.sources()[i] == before[i].source);
                    }
                }
                let mut known = false;
                let mut j: usize = 0;
                while j < self.nets[index].sinks.len()
                    invariant
                        index < self.nets@.len(),
                        j <= self.nets@[index as int].sinks@.len(),
                        known <==> exists|k: int|
                            0 <= k < j && self.nets@[index as int].sinks@[k] == sink,
                    decreases self.nets@[index as int].sinks@.len() - j,
                {
                    if self.nets[index].sinks[j] == sink {
                        known = true;
                    }
                    j += 1;
                }
                proof {
                    assert(old(self)@[index as int].0 == source);
                    assert(has_source(old(self)@, source));
                    let at = choose|i: int|
                        0 <= i < old(self)@.len() && (#[trigger] old(self)@[i]).0 == source;
                    assert(old(self).sources()[at] == old(self).sources()[index as int]);
                    assert(at == index);
                    assert(known <==> before[index as int].sinks@.contains(sink));
                }
                if !known {
                    self.nets[index].sinks.push(sink);
                    proof {
                        assert(self.nets@.len() == before.len());
                        assert(self.nets@[index as int].source == before[index as int].source);
                        assert(self.nets@[index as int].sinks@ == before[index as int].sinks@.push(
                            sink,
                        ));
                        assert forall|i: int| 0 <= i < before.len() && i != index implies self.nets@[i]
                            == before[i] by {}
                        assert(net_sources(self.nets@) =~= net_sources(before));
                        assert forall|i: int| 0 <= i < self.nets@.len() implies (
                        #[trigger] self.sinks(i)).no_duplicates() by {
                            assert(old(self).sinks(i).no_duplicates());
                        }
                        assert(self@ =~= net_insert(old(self)@, source, sink));
                    }
                } else {
                    assert(self@ =~= net_insert(old(self)@, source, sink));
                }
            },
            None => {
                let ghost before = self.nets@;
                self.nets.push(Net { source, sinks: vec![sink] });
                proof {
                    assert(net_sources(self.nets@) =~= net_sources(before).push(source));
                    assert forall|i: int| 0 <= i < before.len() implies before[i].source
                        != source by {
                        assert(old(self).sources()[i] == before[i].source);
                    }
                    assert forall|i: int| 0 <= i < self.nets@.len() implies (
                    #[trigger] self.sinks(i)).no_duplicates() by {
                        if i < before.len() {
                            assert(old(self).sinks(i).no_duplicates());
                        }
                    }
                    assert(!has_source(old(self)@, source)) by {
                        if has_source(old(self)@, source) {
                            let at = choose|i: int|
                                0 <= i < old(self)@.len() && (#[trigger] old(self)@[i]).0
                                    == source;
                            assert(before[at].source == source);
                        }
                    }
                    let added = old(self)@.push((source, seq![sink]));
                    assert(self.nets@[before.len() as int].sinks@ =~= seq![sink]);
                    assert forall|i: int| 0 <= i < self@.len() implies self@[i] == added[i] by {
                        if i < before.len() {
                            assert(self.nets@[i] == before[i]);
                        }
                    }
                    assert(self@ =~= added);
                }
            },
        }
        proof {
            assert forall|node_count: nat|
                old(self).within(node_count) && source < node_count && sink
                    < node_count implies #[trigger] self.within(node_count) by {
                assert forall|i: int| 0 <= i < self.nets@.len() implies (#[trigger] self.nets@[i]).source
                    < node_count && forall|j: int|
                    0 <= j < self.sinks(i).len() ==> (#[trigger] self.sinks(i)[j]) < node_count by {
                    if i < begun.len() {
                        assert(begun[i].source < node_count);
                        assert forall|j: int| 0 <= j < self.sinks(i).len() implies (
                        #[trigger] self.sinks(i)[j]) < node_count by {
                            if j < old(self).sinks(i).len() {
                                assert(self.sinks(i)[j] == old(self).sinks(i)[j]);
                            }
                        }
                    }
                }
            }
        }
    }
}

} // verus!
