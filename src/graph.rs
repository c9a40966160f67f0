use vstd::prelude::*;

use crate::template::{declared_inputs, default_literal, output_kind, NodeTemplate, Slot};
use crate::value::NodeValue;

verus! {

/// An input slot of a node: connected to an output slot of another node, or
/// holding an inline literal.
#[derive(Debug)]
pub struct InputParam {
    pub node: usize,
    pub slot: Slot,
    pub value: NodeValue,
    pub connection: Option<usize>,
}

/// An output slot of a node.
#[derive(Debug)]
pub struct OutputParam {
    pub node: usize,
    pub slot: Slot,
}

/// A node: its template and the ids of its input and output slots.
#[derive(Debug)]
pub struct Node {
    pub template: NodeTemplate,
    pub inputs: Vec<usize>,
    pub outputs: Vec<usize>,
}

/// A graph of nodes. Node, input and output ids index the three vectors.
#[derive(Debug)]
pub struct Graph {
    pub nodes: Vec<Node>,
    pub inputs: Vec<InputParam>,
    pub outputs: Vec<OutputParam>,
}

impl Graph {
    /// Every id is in range, each slot knows its node and each node knows
    /// its slots, and no node has two input or two output slots of one name.
    pub open spec fn wf(&self) -> bool {
        &&& self.inputs@.len() <= usize::MAX
        &&& self.outputs@.len() <= usize::MAX
        &&& forall|n: int, j: int|
            0 <= n < self.nodes@.len() && 0 <= j < self.nodes@[n].inputs@.len() ==> {
                let i = #[trigger] self.nodes@[n].inputs@[j];
                i < self.inputs@.len() && self.inputs@[i as int].node == n
            }
        &&& forall|n: int, j: int|
            0 <= n < self.nodes@.len() && 0 <= j < self.nodes@[n].outputs@.len() ==> {
                let o = #[trigger] self.nodes@[n].outputs@[j];
                o < self.outputs@.len() && self.outputs@[o as int].node == n
            }
        &&& forall|n: int, j: int, k: int|
            0 <= n < self.nodes@.len() && 0 <= j < k < self.nodes@[n].inputs@.len()
                ==> self.inputs@[#[trigger] self.nodes@[n].inputs@[j] as int].slot
                != self.inputs@[#[trigger] self.nodes@[n].inputs@[k] as int].slot
        &&& forall|n: int, j: int, k: int|
            0 <= n < self.nodes@.len() && 0 <= j < k < self.nodes@[n].outputs@.len()
                ==> self.outputs@[#[trigger] self.nodes@[n].outputs@[j] as int].slot
                != self.outputs@[#[trigger] self.nodes@[n].outputs@[k] as int].slot
        &&& forall|i: int|
            0 <= i < self.inputs@.len() ==> {
                &&& (#[trigger] self.inputs@[i]).node < self.nodes@.len()
                &&& self.inputs@[i].connection matches Some(o) ==> o < self.outputs@.len()
            }
        &&& forall|o: int|
            0 <= o < self.outputs@.len() ==> {
                let n = (#[trigger] self.outputs@[o]).node;
                n < self.nodes@.len() && self.nodes@[n as int].outputs@.contains(o as usize)
            }
    }

    /// Every node has each input slot its template declares and an output
    /// slot `Out`, and no output slot has another name.
    pub open spec fn complete(&self) -> bool {
        &&& forall|n: int, k: int|
            0 <= n < self.nodes@.len() && 0 <= k < declared_inputs(self.nodes@[n].template).len()
                ==> self.has_input(n, #[trigger] declared_inputs(self.nodes@[n].template)[k])
        &&& forall|n: int|
            0 <= n < self.nodes@.len() ==> #[trigger] self.has_output(n, Slot::Out)
        &&& forall|o: int| 0 <= o < self.outputs@.len() ==> (#[trigger] self.outputs@[o]).slot == Slot::Out
    }

    /// Each input slot receives a value of the kind its name carries: from
    /// the template of the node it is connected to, or from its literal.
    pub open spec fn well_typed(&self) -> bool {
        forall|i: int|
            0 <= i < self.inputs@.len() ==> match (#[trigger] self.inputs@[i]).connection {
                Some(o) => output_kind(self.nodes@[self.outputs@[o as int].node as int].template)
                    == self.inputs@[i].slot.kind(),
                None => self.inputs@[i].value.kind() == self.inputs@[i].slot.kind(),
            }
    }

    /// `rank` orders the nodes so that every connection runs from a node of
    /// lower rank to one of higher rank.
    pub open spec fn ranked_by(&self, rank: Seq<nat>) -> bool {
        &&& rank.len() == self.nodes@.len()
        &&& forall|i: int|
            0 <= i < self.inputs@.len() && (#[trigger] self.inputs@[i]).connection is Some ==> rank[
                self.outputs@[self.inputs@[i].connection->Some_0 as int].node as int]
                < rank[self.inputs@[i].node as int]
    }

    /// No node depends, directly or through others, on its own output.
    pub open spec fn acyclic(&self) -> bool {
        exists|rank: Seq<nat>| #[trigger] self.ranked_by(rank)
    }

    /// Input slot `i` belongs to node `n` and is named `s`.
    pub open spec fn is_input(&self, n: int, s: Slot, i: int) -> bool {
        &&& 0 <= i < self.inputs@.len()
        &&& self.nodes@[n].inputs@.contains(i as usize)
        &&& self.inputs@[i].slot == s
    }

    /// Output slot `o` belongs to node `n` and is named `s`.
    pub open spec fn is_output(&self, n: int, s: Slot, o: int) -> bool {
        &&& 0 <= o < self.outputs@.len()
        &&& self.nodes@[n].outputs@.contains(o as usize)
        &&& self.outputs@[o].slot == s
    }

    pub open spec fn has_output(&self, n: int, s: Slot) -> bool {
        exists|o: int| self.is_output(n, s, o)
    }

    pub open spec fn has_input(&self, n: int, s: Slot) -> bool {
        exists|i: int| self.is_input(n, s, i)
    }

    /// The id of the input slot of node `n` named `s`, where there is one.
    pub open spec fn input_of(&self, n: int, s: Slot) -> int {
        choose|i: int| self.is_input(n, s, i)
    }

    pub fn new() -> (g: Graph)
        ensures
            g.wf(),
            g.nodes@.len() == 0,
            g.inputs@.len() == 0,
            g.outputs@.len() == 0,
            g.complete(),
            g.well_typed(),
            g.acyclic(),
    {
        let g = Graph { nodes: Vec::new(), inputs: Vec::new(), outputs: Vec::new() };
        proof {
            assert(g.ranked_by(Seq::empty()));
        }
        g
    }

    /// Adds a node of template `t`: one input slot for each slot that the
    /// template declares, holding the template's default literal, and the one
    /// output slot `Out`. Existing ids keep their meaning.
    pub fn add_node(&mut self, t: NodeTemplate) -> (n: usize)
        requires
            old(self).wf(),
            old(self).nodes@.len() < usize::MAX,
            old(self).inputs@.len() + declared_inputs(t).len() <= usize::MAX,
            old(self).outputs@.len() < usize::MAX,
        ensures
            final(self).wf(),
            n == old(self).nodes@.len(),
            final(self).nodes@ == old(self).nodes@.push(final(self).nodes@[n as int]),
            final(self).inputs@.subrange(0, old(self).inputs@.len() as int) == old(self).inputs@,
            final(self).outputs@ == old(self).outputs@.push(
                OutputParam { node: n, slot: Slot::Out },
            ),
            final(self).nodes@[n as int].template == t,
            final(self).nodes@[n as int].outputs@ == seq![old(self).outputs@.len() as usize],
            final(self).nodes@[n as int].inputs@.len() == declared_inputs(t).len(),
            final(self).inputs@.len() == old(self).inputs@.len() + declared_inputs(t).len(),
            forall|k: int|
                0 <= k < declared_inputs(t).len() ==> {
                    let i = #[trigger] final(self).nodes@[n as int].inputs@[k];
                    &&& i == old(self).inputs@.len() + k
                    &&& final(self).inputs@[i as int] == (InputParam {
                        node: n,
                        slot: declared_inputs(t)[k],
                        value: default_literal(t, declared_inputs(t)[k]),
                        connection: None,
                    })
                },
            old(self).complete() ==> final(self).complete(),
            old(self).well_typed() ==> final(self).well_typed(),
            old(self).acyclic() ==> final(self).acyclic(),
    {
        proof {
            lemma_declared_distinct(t);
        }
        let n = self.nodes.len();
        let base = self.inputs.len();
        let decl = t.inputs();
        let mut ids: Vec<usize> = Vec::new();
        let mut k: usize = 0;
        while k < decl.len()
            invariant
                old(self).wf(),
                n == old(self).nodes@.len(),
                base == old(self).inputs@.len(),
                decl@ == declared_inputs(t),
                base + decl@.len() <= usize::MAX,
                k <= decl@.len(),
                self.nodes@ == old(self).nodes@,
                self.outputs@ == old(self).outputs@,
                self.inputs@.len() == base + k,
                self.inputs@.subrange(0, base as int) == old(self).inputs@,
                ids@.len() == k,
                forall|j: int| 0 <= j < k ==> #[trigger] ids@[j] == base + j,
                forall|i: int|
                    base <= i < base + k ==> #[trigger] self.inputs@[i] == (InputParam {
                        node: n,
                        slot: decl@[i - base],
                        value: default_literal(t, decl@[i - base]),
                        connection: None,
                    }),
            decreases decl@.len() - k,
        {
            let s = decl[k];
            let value = t.default_input(s);
            let id = self.inputs.len();
            let ghost before = self.inputs@;
            self.inputs.push(InputParam { node: n, slot: s, value, connection: None });
            ids.push(id);
            proof {
                assert(self.inputs@.subrange(0, base as int) =~= old(self).inputs@);
                assert forall|i: int| base <= i < base + k implies #[trigger] self.inputs@[i]
                    == before[i] by {}
            }
            k += 1;
        }
        let o = self.outputs.len();
        self.outputs.push(OutputParam { node: n, slot: Slot::Out });
        self.nodes.push(Node { template: t, inputs: ids, outputs: vec![o] });
        proof {
            let g = &*self;
            let old_in = old(self).inputs@;
            assert(forall|i: int| 0 <= i < old_in.len() ==> g.inputs@[i] == old_in[i]);
            assert forall|m: int, j: int|
                0 <= m < g.nodes@.len() && 0 <= j < g.nodes@[m].inputs@.len() implies {
                let i = #[trigger] g.nodes@[m].inputs@[j];
                i < g.inputs@.len() && g.inputs@[i as int].node == m
            } by {
                if m < n {
                    assert(g.nodes@[m] == old(self).nodes@[m]);
                }
            }
            assert forall|m: int, j: int|
                0 <= m < g.nodes@.len() && 0 <= j < g.nodes@[m].outputs@.len() implies {
                let o2 = #[trigger] g.nodes@[m].outputs@[j];
                o2 < g.outputs@.len() && g.outputs@[o2 as int].node == m
            } by {
                if m < n {
                    assert(g.nodes@[m] == old(self).nodes@[m]);
                }
            }
            assert forall|m: int, j: int, l: int|
                0 <= m < g.nodes@.len() && 0 <= j < l < g.nodes@[m].inputs@.len() implies g.inputs@[
                #[trigger] g.nodes@[m].inputs@[j] as int].slot != g.inputs@[
                #[trigger] g.nodes@[m].inputs@[l] as int].slot by {
                if m < n {
                    assert(g.nodes@[m] == old(self).nodes@[m]);
                }
            }
            assert forall|m: int, j: int, l: int|
                0 <= m < g.nodes@.len() && 0 <= j < l < g.nodes@[m].outputs@.len() implies g.outputs@[
                #[trigger] g.nodes@[m].outputs@[j] as int].slot != g.outputs@[
                #[trigger] g.nodes@[m].outputs@[l] as int].slot by {
                if m < n {
                    assert(g.nodes@[m] == old(self).nodes@[m]);
                }
            }
            assert forall|i: int| 0 <= i < g.inputs@.len() implies {
                &&& (#[trigger] g.inputs@[i]).node < g.nodes@.len()
                &&& g.inputs@[i].connection matches Some(o2) ==> o2 < g.outputs@.len()
            } by {
                if i < base {
                    assert(old_in[i] == g.inputs@[i]);
                }
            }
            assert forall|o2: int| 0 <= o2 < g.outputs@.len() implies {
                let m = (#[trigger] g.outputs@[o2]).node;
                m < g.nodes@.len() && g.nodes@[m as int].outputs@.contains(o2 as usize)
            } by {
                if o2 < o {
                    let m = g.outputs@[o2].node;
                    assert(g.nodes@[m as int] == old(self).nodes@[m as int]);
                } else {
                    assert(g.nodes@[n as int].outputs@[0] == o2);
                }
            }
            assert(g.nodes@[n as int].outputs@ =~= seq![o]);
            assert(g.inputs@.subrange(0, base as int) =~= old(self).inputs@);
            lemma_add_node_preserves(old(self), g, t);
        }
        n
    }

    /// Connects output slot `o` to input slot `i`, replacing any earlier
    /// connection of `i`.
    pub fn connect(&mut self, o: usize, i: usize)
        requires
            old(self).wf(),
            o < old(self).outputs@.len(),
            i < old(self).inputs@.len(),
        ensures
            final(self).wf(),
            final(self).nodes@ == old(self).nodes@,
            final(self).outputs@ == old(self).outputs@,
            final(self).inputs@ == old(self).inputs@.update(
                i as int,
                InputParam { connection: Some(o), ..old(self).inputs@[i as int] },
            ),
            old(self).complete() ==> final(self).complete(),
            old(self).well_typed() && output_kind(
                old(self).nodes@[old(self).outputs@[o as int].node as int].template,
            ) == old(self).inputs@[i as int].slot.kind() ==> final(self).well_typed(),
    {
        let p = &self.inputs[i];
        let updated = InputParam {
            node: p.node,
            slot: p.slot,
            value: p.value.share(),
            connection: Some(o),
        };
        self.inputs.set(i, updated);
        proof {
            let g = &*self;
            lemma_update_input_preserves(old(self), g, i as int);
            assert forall|m: int, j: int|
                0 <= m < g.nodes@.len() && 0 <= j < g.nodes@[m].inputs@.len() implies {
                let i2 = #[trigger] g.nodes@[m].inputs@[j];
                i2 < g.inputs@.len() && g.inputs@[i2 as int].node == m
            } by {
                assert(old(self).nodes@[m].inputs@[j] == g.nodes@[m].inputs@[j]);
            }
            assert forall|m: int, j: int, l: int|
                0 <= m < g.nodes@.len() && 0 <= j < l < g.nodes@[m].inputs@.len() implies g.inputs@[
                #[trigger] g.nodes@[m].inputs@[j] as int].slot != g.inputs@[
                #[trigger] g.nodes@[m].inputs@[l] as int].slot by {
                assert(old(self).nodes@[m].inputs@[j] == g.nodes@[m].inputs@[j]);
                assert(old(self).nodes@[m].inputs@[l] == g.nodes@[m].inputs@[l]);
            }
        }
    }

    /// Stores `value` as the inline literal of input slot `i`.
    pub fn set_literal(&mut self, i: usize, value: NodeValue)
        requires
            old(self).wf(),
            i < old(self).inputs@.len(),
        ensures
            final(self).wf(),
            final(self).nodes@ == old(self).nodes@,
            final(self).outputs@ == old(self).outputs@,
            final(self).inputs@ == old(self).inputs@.update(
                i as int,
                InputParam { value: value, ..old(self).inputs@[i as int] },
            ),
            old(self).complete() ==> final(self).complete(),
            old(self).well_typed() && value.kind() == old(self).inputs@[i as int].slot.kind()
                ==> final(self).well_typed(),
            old(self).acyclic() ==> final(self).acyclic(),
    {
        let p = &self.inputs[i];
        let updated = InputParam { node: p.node, slot: p.slot, value, connection: p.connection };
        self.inputs.set(i, updated);
        proof {
            let g = &*self;
            lemma_update_input_preserves(old(self), g, i as int);
            assert forall|m: int, j: int|
                0 <= m < g.nodes@.len() && 0 <= j < g.nodes@[m].inputs@.len() implies {
                let i2 = #[trigger] g.nodes@[m].inputs@[j];
                i2 < g.inputs@.len() && g.inputs@[i2 as int].node == m
            } by {
                assert(old(self).nodes@[m].inputs@[j] == g.nodes@[m].inputs@[j]);
            }
            assert forall|m: int, j: int, l: int|
                0 <= m < g.nodes@.len() && 0 <= j < l < g.nodes@[m].inputs@.len() implies g.inputs@[
                #[trigger] g.nodes@[m].inputs@[j] as int].slot != g.inputs@[
                #[trigger] g.nodes@[m].inputs@[l] as int].slot by {
                assert(old(self).nodes@[m].inputs@[j] == g.nodes@[m].inputs@[j]);
                assert(old(self).nodes@[m].inputs@[l] == g.nodes@[m].inputs@[l]);
            }
        }
    }

    /// Looks up the input slot of node `n` named `s`.
    pub fn input_id(&self, n: usize, s: Slot) -> (r: Option<usize>)
        requires
            self.wf(),
            n < self.nodes@.len(),
        ensures
            match r {
                Some(i) => self.is_input(n as int, s, i as int) && i < self.inputs@.len(),
                None => !self.has_input(n as int, s),
            },
    {
        let n_inputs = self.inputs.len();
        let ids = &self.nodes[n].inputs;
        let mut j: usize = 0;
        while j < ids.len()
            invariant
                self.wf(),
                n < self.nodes@.len(),
                ids == &self.nodes@[n as int].inputs,
                n_inputs == self.inputs@.len(),
                j <= ids@.len(),
                forall|k: int| 0 <= k < j ==> self.inputs@[#[trigger] ids@[k] as int].slot != s,
            decreases ids@.len() - j,
        {
            let i = ids[j];
            assert(i == self.nodes@[n as int].inputs@[j as int]);
            if self.inputs[i].slot == s {
                return Some(i);
            }
            j += 1;
        }
        proof {
            assert forall|i: int| !self.is_input(n as int, s, i) by {
                if self.is_input(n as int, s, i) {
                    let k = ids@.index_of(i as usize);
                    assert(ids@[k] == i as usize);
                }
            }
        }
        None
    }

    /// Looks up the output slot of node `n` named `s`.
    pub fn output_id(&self, n: usize, s: Slot) -> (r: Option<usize>)
        requires
            self.wf(),
            n < self.nodes@.len(),
        ensures
            match r {
                Some(o) => self.is_output(n as int, s, o as int) && o < self.outputs@.len(),
                None => forall|o: int| !self.is_output(n as int, s, o),
            },
    {
        let n_outputs = self.outputs.len();
        let ids = &self.nodes[n].outputs;
        let mut j: usize = 0;
        while j < ids.len()
            invariant
                self.wf(),
                n < self.nodes@.len(),
                ids == &self.nodes@[n as int].outputs,
                n_outputs == self.outputs@.len(),
                j <= ids@.len(),
                forall|k: int| 0 <= k < j ==> self.outputs@[#[trigger] ids@[k] as int].slot != s,
            decreases ids@.len() - j,
        {
            let o = ids[j];
            assert(o == self.nodes@[n as int].outputs@[j as int]);
            if self.outputs[o].slot == s {
                return Some(o);
            }
            j += 1;
        }
        proof {
            assert forall|o: int| !self.is_output(n as int, s, o) by {
                if self.is_output(n as int, s, o) {
                    let k = ids@.index_of(o as usize);
                    assert(ids@[k] == o as usize);
                }
            }
        }
        None
    }
}

/// The literal a template declares for a slot has the kind the slot carries.
pub proof fn lemma_default_kind(t: NodeTemplate, s: Slot)
    ensures
        default_literal(t, s).kind() == s.kind(),
{
}

/// Completeness, typing and acyclicity survive adding a node: the new node
/// has all its declared slots, literals of the right kinds, and no
/// connections.
proof fn lemma_add_node_preserves(a: &Graph, b: &Graph, t: NodeTemplate)
    requires
        a.wf(),
        b.wf(),
        b.nodes@ == a.nodes@.push(b.nodes@[a.nodes@.len() as int]),
        b.inputs@.len() == a.inputs@.len() + declared_inputs(t).len(),
        b.inputs@.subrange(0, a.inputs@.len() as int) == a.inputs@,
        b.outputs@ == a.outputs@.push(OutputParam { node: a.nodes@.len() as usize, slot: Slot::Out }),
        b.nodes@[a.nodes@.len() as int].template == t,
        b.nodes@[a.nodes@.len() as int].outputs@ == seq![a.outputs@.len() as usize],
        b.nodes@[a.nodes@.len() as int].inputs@.len() == declared_inputs(t).len(),
        forall|k: int|
            0 <= k < declared_inputs(t).len() ==> {
                let i = #[trigger] b.nodes@[a.nodes@.len() as int].inputs@[k];
                &&& i == a.inputs@.len() + k
                &&& b.inputs@[i as int] == (InputParam {
                    node: a.nodes@.len() as usize,
                    slot: declared_inputs(t)[k],
                    value: default_literal(t, declared_inputs(t)[k]),
                    connection: None,
                })
            },
    ensures
        a.complete() ==> b.complete(),
        a.well_typed() ==> b.well_typed(),
        a.acyclic() ==> b.acyclic(),
{
    let n = a.nodes@.len() as int;
    let base = a.inputs@.len() as int;
    assert forall|i: int| 0 <= i < base implies #[trigger] b.inputs@[i] == a.inputs@[i] by {
        assert(b.inputs@.subrange(0, base)[i] == b.inputs@[i]);
    }
    assert forall|i: int| base <= i < b.inputs@.len() implies (#[trigger] b.inputs@[i]).connection
        is None && b.inputs@[i].node == n by {
        assert(b.nodes@[n].inputs@[i - base] == i);
    }
    if a.complete() {
        assert forall|m: int, k: int|
            0 <= m < b.nodes@.len() && 0 <= k < declared_inputs(b.nodes@[m].template).len()
                implies b.has_input(m, #[trigger] declared_inputs(b.nodes@[m].template)[k]) by {
            let s = declared_inputs(b.nodes@[m].template)[k];
            if m < n {
                assert(b.nodes@[m] == a.nodes@[m]);
                assert(a.has_input(m, s));
                let i = a.input_of(m, s);
                assert(b.is_input(m, s, i));
            } else {
                let i = b.nodes@[n].inputs@[k];
                assert(b.nodes@[n].inputs@.contains(i));
                assert(b.is_input(m, s, i as int));
            }
        }
        assert forall|m: int| 0 <= m < b.nodes@.len() implies #[trigger] b.has_output(m, Slot::Out) by {
            if m < n {
                assert(b.nodes@[m] == a.nodes@[m]);
                assert(a.has_output(m, Slot::Out));
                let o = choose|o: int| a.is_output(m, Slot::Out, o);
                assert(b.is_output(m, Slot::Out, o));
            } else {
                let o = a.outputs@.len() as int;
                assert(b.nodes@[n].outputs@[0] == o as usize);
                assert(b.is_output(m, Slot::Out, o));
            }
        }
        assert forall|o: int| 0 <= o < b.outputs@.len() implies (#[trigger] b.outputs@[o]).slot
            == Slot::Out by {
            if o < a.outputs@.len() {
                assert(b.outputs@[o] == a.outputs@[o]);
            }
        }
    }
    if a.well_typed() {
        assert forall|i: int| 0 <= i < b.inputs@.len() implies match (#[trigger] b.inputs@[i]).connection {
            Some(o) => output_kind(b.nodes@[b.outputs@[o as int].node as int].template)
                == b.inputs@[i].slot.kind(),
            None => b.inputs@[i].value.kind() == b.inputs@[i].slot.kind(),
        } by {
            if i < base {
                assert(b.inputs@[i] == a.inputs@[i]);
                if let Some(o) = a.inputs@[i].connection {
                    assert(b.outputs@[o as int] == a.outputs@[o as int]);
                    let m = a.outputs@[o as int].node as int;
                    assert(b.nodes@[m] == a.nodes@[m]);
                }
            } else {
                let k = i - base;
                assert(b.nodes@[n].inputs@[k] == i);
                lemma_default_kind(t, declared_inputs(t)[k]);
            }
        }
    }
    if a.acyclic() {
        let rank = choose|rank: Seq<nat>| #[trigger] a.ranked_by(rank);
        let r2 = rank.push(0);
        assert forall|i: int|
            0 <= i < b.inputs@.len() && (#[trigger] b.inputs@[i]).connection is Some implies r2[
            b.outputs@[b.inputs@[i].connection->Some_0 as int].node as int] < r2[b.inputs@[i].node as int] by {
            assert(i < base);
            assert(b.inputs@[i] == a.inputs@[i]);
            let o = a.inputs@[i].connection->Some_0 as int;
            assert(b.outputs@[o] == a.outputs@[o]);
        }
        assert(b.ranked_by(r2));
    }
}

/// Changing what an input slot holds, without moving it, keeps the graph
/// complete; it stays well typed where the new content has the slot's kind,
/// and acyclic where the connection is unchanged.
proof fn lemma_update_input_preserves(a: &Graph, b: &Graph, i: int)
    requires
        a.wf(),
        0 <= i < a.inputs@.len(),
        b.nodes@ == a.nodes@,
        b.outputs@ == a.outputs@,
        b.inputs@.len() == a.inputs@.len(),
        forall|j: int| 0 <= j < a.inputs@.len() && j != i ==> #[trigger] b.inputs@[j] == a.inputs@[j],
        b.inputs@[i].node == a.inputs@[i].node,
        b.inputs@[i].slot == a.inputs@[i].slot,
        b.inputs@[i].connection matches Some(o) ==> o < a.outputs@.len(),
    ensures
        a.complete() ==> b.complete(),
        a.well_typed() && match b.inputs@[i].connection {
            Some(o) => output_kind(b.nodes@[b.outputs@[o as int].node as int].template)
                == b.inputs@[i].slot.kind(),
            None => b.inputs@[i].value.kind() == b.inputs@[i].slot.kind(),
        } ==> b.well_typed(),
        a.acyclic() && b.inputs@[i].connection == a.inputs@[i].connection ==> b.acyclic(),
{
    if a.complete() {
        assert forall|m: int, k: int|
            0 <= m < b.nodes@.len() && 0 <= k < declared_inputs(b.nodes@[m].template).len()
                implies b.has_input(m, #[trigger] declared_inputs(b.nodes@[m].template)[k]) by {
            let s = declared_inputs(b.nodes@[m].template)[k];
            assert(a.has_input(m, s));
            let j = a.input_of(m, s);
            assert(b.is_input(m, s, j));
        }
        assert forall|m: int| 0 <= m < b.nodes@.len() implies #[trigger] b.has_output(m, Slot::Out) by {
            assert(a.has_output(m, Slot::Out));
            let o = choose|o: int| a.is_output(m, Slot::Out, o);
            assert(b.is_output(m, Slot::Out, o));
        }
    }
    if a.acyclic() && b.inputs@[i].connection == a.inputs@[i].connection {
        let rank = choose|rank: Seq<nat>| #[trigger] a.ranked_by(rank);
        assert forall|j: int|
            0 <= j < b.inputs@.len() && (#[trigger] b.inputs@[j]).connection is Some implies rank[
            b.outputs@[b.inputs@[j].connection->Some_0 as int].node as int] < rank[b.inputs@[j].node as int] by {
            assert(a.inputs@[j].connection is Some);
        }
        assert(b.ranked_by(rank));
    }
}

/// A template declares each input slot once.
pub proof fn lemma_declared_distinct(t: NodeTemplate)
    ensures
        forall|j: int, k: int|
            0 <= j < k < declared_inputs(t).len() ==> declared_inputs(t)[j]
                != declared_inputs(t)[k],
{
}

/// No node has two output slots of one name.
pub proof fn lemma_output_unique(g: &Graph, n: int, s: Slot, o1: int, o2: int)
    requires
        g.wf(),
        0 <= n < g.nodes@.len(),
        g.is_output(n, s, o1),
        g.is_output(n, s, o2),
    ensures
        o1 == o2,
{
    let outs = g.nodes@[n].outputs@;
    let j = outs.index_of(o1 as usize);
    let k = outs.index_of(o2 as usize);
    assert(outs[j] == o1 as usize);
    assert(outs[k] == o2 as usize);
    if j < k {
        assert(g.outputs@[outs[j] as int].slot != g.outputs@[outs[k] as int].slot);
    } else if k < j {
        assert(g.outputs@[outs[k] as int].slot != g.outputs@[outs[j] as int].slot);
    }
}

impl Graph {
    /// Node slot ids are in range and point back at their node.
    fn node_slots_ok(&self) -> (r: bool)
        ensures
            r == ((forall|n: int, j: int|
                0 <= n < self.nodes@.len() && 0 <= j < self.nodes@[n].inputs@.len() ==> {
                    let i = #[trigger] self.nodes@[n].inputs@[j];
                    i < self.inputs@.len() && self.inputs@[i as int].node == n
                }) && (forall|n: int, j: int|
                0 <= n < self.nodes@.len() && 0 <= j < self.nodes@[n].outputs@.len() ==> {
                    let o = #[trigger] self.nodes@[n].outputs@[j];
                    o < self.outputs@.len() && self.outputs@[o as int].node == n
                })),
    {
        let mut n: usize = 0;
        while n < self.nodes.len()
            invariant
                n <= self.nodes@.len(),
                forall|m: int, j: int|
                    0 <= m < n && 0 <= j < self.nodes@[m].inputs@.len() ==> {
                        let i = #[trigger] self.nodes@[m].inputs@[j];
                        i < self.inputs@.len() && self.inputs@[i as int].node == m
                    },
                forall|m: int, j: int|
                    0 <= m < n && 0 <= j < self.nodes@[m].outputs@.len() ==> {
                        let o = #[trigger] self.nodes@[m].outputs@[j];
                        o < self.outputs@.len() && self.outputs@[o as int].node == m
                    },
            decreases self.nodes@.len() - n,
        {
            let ins = &self.nodes[n].inputs;
            let mut j: usize = 0;
            while j < ins.len()
                invariant
                    n < self.nodes@.len(),
                    ins == &self.nodes@[n as int].inputs,
                    j <= ins@.len(),
                    forall|k: int|
                        0 <= k < j ==> {
                            let i = #[trigger] ins@[k];
                            i < self.inputs@.len() && self.inputs@[i as int].node == n
                        },
                decreases ins@.len() - j,
            {
                let i = ins[j];
                if i >= self.inputs.len() || self.inputs[i].node != n {
                    return false;
                }
                j += 1;
            }
            let outs = &self.nodes[n].outputs;
            let mut j: usize = 0;
            while j < outs.len()
                invariant
                    n < self.nodes@.len(),
                    outs == &self.nodes@[n as int].outputs,
                    j <= outs@.len(),
                    forall|k: int|
                        0 <= k < j ==> {
                            let o = #[trigger] outs@[k];
                            o < self.outputs@.len() && self.outputs@[o as int].node == n
                        },
                decreases outs@.len() - j,
            {
                let o = outs[j];
                if o >= self.outputs.len() || self.outputs[o].node != n {
                    return false;
                }
                j += 1;
            }
            n += 1;
        }
        true
    }

    /// No node has two input slots, or two output slots, of one name.
    fn slot_names_distinct(&self) -> (r: bool)
        requires
            forall|n: int, j: int|
                0 <= n < self.nodes@.len() && 0 <= j < self.nodes@[n].inputs@.len()
                    ==> #[trigger] self.nodes@[n].inputs@[j] < self.inputs@.len(),
            forall|n: int, j: int|
                0 <= n < self.nodes@.len() && 0 <= j < self.nodes@[n].outputs@.len()
                    ==> #[trigger] self.nodes@[n].outputs@[j] < self.outputs@.len(),
        ensures
            r == ((forall|n: int, j: int, k: int|
                0 <= n < self.nodes@.len() && 0 <= j < k < self.nodes@[n].inputs@.len()
                    ==> self.inputs@[#[trigger] self.nodes@[n].inputs@[j] as int].slot
                    != self.inputs@[#[trigger] self.nodes@[n].inputs@[k] as int].slot) && (forall|
                n: int,
                j: int,
                k: int,
            |
                0 <= n < self.nodes@.len() && 0 <= j < k < self.nodes@[n].outputs@.len()
                    ==> self.outputs@[#[trigger] self.nodes@[n].outputs@[j] as int].slot
                    != self.outputs@[#[trigger] self.nodes@[n].outputs@[k] as int].slot)),
    {
        let mut n: usize = 0;
        while n < self.nodes.len()
            invariant
                n <= self.nodes@.len(),
                forall|m: int, j: int|
                    0 <= m < self.nodes@.len() && 0 <= j < self.nodes@[m].inputs@.len()
                        ==> #[trigger] self.nodes@[m].inputs@[j] < self.inputs@.len(),
                forall|m: int, j: int|
                    0 <= m < self.nodes@.len() && 0 <= j < self.nodes@[m].outputs@.len()
                        ==> #[trigger] self.nodes@[m].outputs@[j] < self.outputs@.len(),
                forall|m: int, j: int, k: int|
                    0 <= m < n && 0 <= j < k < self.nodes@[m].inputs@.len()
                        ==> self.inputs@[#[trigger] self.nodes@[m].inputs@[j] as int].slot
                        != self.inputs@[#[trigger] self.nodes@[m].inputs@[k] as int].slot,
                forall|m: int, j: int, k: int|
                    0 <= m < n && 0 <= j < k < self.nodes@[m].outputs@.len()
                        ==> self.outputs@[#[trigger] self.nodes@[m].outputs@[j] as int].slot
                        != self.outputs@[#[trigger] self.nodes@[m].outputs@[k] as int].slot,
            decreases self.nodes@.len() - n,
        {
            let ins = &self.nodes[n].inputs;
            let mut k: usize = 0;
            while k < ins.len()
                invariant
                    n < self.nodes@.len(),
                    ins == &self.nodes@[n as int].inputs,
                    forall|j: int| 0 <= j < ins@.len() ==> #[trigger] ins@[j] < self.inputs@.len(),
                    k <= ins@.len(),
                    forall|j: int, l: int|
                        0 <= j < l < k ==> self.inputs@[#[trigger] ins@[j] as int].slot
                            != self.inputs@[#[trigger] ins@[l] as int].slot,
                decreases ins@.len() - k,
            {
                let mut j: usize = 0;
                while j < k
                    invariant
                        n < self.nodes@.len(),
                        ins == &self.nodes@[n as int].inputs,
                        forall|x: int| 0 <= x < ins@.len() ==> #[trigger] ins@[x] < self.inputs@.len(),
                        k < ins@.len(),
                        j <= k,
                        forall|x: int| 0 <= x < j ==> self.inputs@[#[trigger] ins@[x] as int].slot
                            != self.inputs@[ins@[k as int] as int].slot,
                    decreases k - j,
                {
                    if self.inputs[ins[j]].slot == self.inputs[ins[k]].slot {
                        return false;
                    }
                    j += 1;
                }
                k += 1;
            }
            let outs = &self.nodes[n].outputs;
            let mut k: usize = 0;
            while k < outs.len()
                invariant
                    n < self.nodes@.len(),
                    outs == &self.nodes@[n as int].outputs,
                    forall|j: int| 0 <= j < outs@.len() ==> #[trigger] outs@[j] < self.outputs@.len(),
                    k <= outs@.len(),
                    forall|j: int, l: int|
                        0 <= j < l < k ==> self.outputs@[#[trigger] outs@[j] as int].slot
                            != self.outputs@[#[trigger] outs@[l] as int].slot,
                decreases outs@.len() - k,
            {
                let mut j: usize = 0;
                while j < k
                    invariant
                        n < self.nodes@.len(),
                        outs == &self.nodes@[n as int].outputs,
                        forall|x: int| 0 <= x < outs@.len() ==> #[trigger] outs@[x] < self.outputs@.len(),
                        k < outs@.len(),
                        j <= k,
                        forall|x: int| 0 <= x < j ==> self.outputs@[#[trigger] outs@[x] as int].slot
                            != self.outputs@[outs@[k as int] as int].slot,
                    decreases k - j,
                {
                    if self.outputs[outs[j]].slot == self.outputs[outs[k]].slot {
                        return false;
                    }
                    j += 1;
                }
                k += 1;
            }
            n += 1;
        }
        true
    }

    /// Every slot names a node of the graph, connections name outputs of the
    /// graph, and each output is listed by its node.
    fn slot_owners_ok(&self) -> (r: bool)
        ensures
            r == ((forall|i: int|
                0 <= i < self.inputs@.len() ==> {
                    &&& (#[trigger] self.inputs@[i]).node < self.nodes@.len()
                    &&& self.inputs@[i].connection matches Some(o) ==> o < self.outputs@.len()
                }) && (forall|o: int|
                0 <= o < self.outputs@.len() ==> {
                    let n = (#[trigger] self.outputs@[o]).node;
                    n < self.nodes@.len() && self.nodes@[n as int].outputs@.contains(o as usize)
                })),
    {
        let mut i: usize = 0;
        while i < self.inputs.len()
            invariant
                i <= self.inputs@.len(),
                forall|x: int|
                    0 <= x < i ==> {
                        &&& (#[trigger] self.inputs@[x]).node < self.nodes@.len()
                        &&& self.inputs@[x].connection matches Some(o) ==> o < self.outputs@.len()
                    },
            decreases self.inputs@.len() - i,
        {
            let p = &self.inputs[i];
            if p.node >= self.nodes.len() {
                return false;
            }
            if let Some(o) = p.connection {
                if o >= self.outputs.len() {
                    return false;
                }
            }
            i += 1;
        }
        let mut o: usize = 0;
        while o < self.outputs.len()
            invariant
                o <= self.outputs@.len(),
                forall|x: int|
                    0 <= x < self.inputs@.len() ==> {
                        &&& (#[trigger] self.inputs@[x]).node < self.nodes@.len()
                        &&& self.inputs@[x].connection matches Some(o2) ==> o2 < self.outputs@.len()
                    },
                forall|x: int|
                    0 <= x < o ==> {
                        let n = (#[trigger] self.outputs@[x]).node;
                        n < self.nodes@.len() && self.nodes@[n as int].outputs@.contains(x as usize)
                    },
            decreases self.outputs@.len() - o,
        {
            let n = self.outputs[o].node;
            if n >= self.nodes.len() {
                return false;
            }
            let outs = &self.nodes[n].outputs;
            let mut j: usize = 0;
            let mut found = false;
            while j < outs.len()
                invariant
                    j <= outs@.len(),
                    found ==> outs@.contains(o),
                    !found ==> forall|k: int| 0 <= k < j ==> outs@[k] != o,
                decreases outs@.len() - j,
            {
                if outs[j] == o {
                    found = true;
                    assert(outs@[j as int] == o);
                }
                j += 1;
            }
            if !found {
                return false;
            }
            o += 1;
        }
        true
    }

    /// Decides whether the graph is well formed.
    pub fn is_well_formed(&self) -> (r: bool)
        ensures
            r == self.wf(),
    {
        let _ = self.inputs.len();
        let _ = self.outputs.len();
        if !self.node_slots_ok() {
            return false;
        }
        if !self.slot_names_distinct() {
            return false;
        }
        self.slot_owners_ok()
    }
}

} // verus!
