use vstd::prelude::*;
use vstd::set_lib::{lemma_int_range, lemma_len_subset, set_int_range};

use crate::graph::{lemma_output_unique, Graph};
use crate::template::{
    declared_inputs, default_literal, output_kind, output_of, well_kinded, NodeTemplate, Slot,
    ZERO,
};
use crate::value::{EvalError, NodeValue, NoiseExpr, Scalar};

verus! {

/// The outputs computed during one evaluation pass, indexed by output id,
/// and the nodes whose template ran, in the order they ran.
#[derive(Debug)]
pub struct OutputsCache {
    pub values: Vec<Option<NodeValue>>,
    pub evaluated: Vec<usize>,
}

/// `new` keeps every value `old` has and may add more.
pub open spec fn extends(old: Seq<Option<NodeValue>>, new: Seq<Option<NodeValue>>) -> bool {
    &&& new.len() == old.len()
    &&& forall|o: int| 0 <= o < old.len() && (#[trigger] old[o]) is Some ==> new[o] == old[o]
}

/// The value input slot `i` takes: its producer's cached output when it is
/// connected, its inline literal otherwise.
pub open spec fn input_value(g: &Graph, values: Seq<Option<NodeValue>>, i: int) -> Option<
    NodeValue,
> {
    match g.inputs@[i].connection {
        Some(o) => values[o as int],
        None => Some(g.inputs@[i].value),
    }
}

/// Node `n` has every input slot its template declares, and each of them
/// has a value.
pub open spec fn inputs_resolved(g: &Graph, values: Seq<Option<NodeValue>>, n: int) -> bool {
    let decl = declared_inputs(g.nodes@[n].template);
    forall|k: int|
        0 <= k < decl.len() ==> {
            &&& g.has_input(n, #[trigger] decl[k])
            &&& input_value(g, values, g.input_of(n, decl[k])) is Some
        }
}

/// The values of node `n`'s inputs, in declared order.
pub open spec fn node_inputs(g: &Graph, values: Seq<Option<NodeValue>>, n: int) -> Seq<NodeValue> {
    declared_inputs(g.nodes@[n].template).map(
        |k: int, s: Slot| input_value(g, values, g.input_of(n, s))->Some_0,
    )
}

/// What a successful evaluation of node `n` yields: `v`, computed by the
/// node's template from its inputs' values and stored under its output `Out`.
pub open spec fn evaluated_to(g: &Graph, values: Seq<Option<NodeValue>>, n: int, v: NodeValue) -> bool {
    &&& inputs_resolved(g, values, n)
    &&& well_kinded(g.nodes@[n].template, node_inputs(g, values, n))
    &&& v == output_of(g.nodes@[n].template, node_inputs(g, values, n))
    &&& exists|o: int| g.is_output(n, Slot::Out, o) && values[o] == Some(v)
}

impl OutputsCache {
    /// The cache covers every output of `g`; it holds an output exactly for
    /// the nodes that were evaluated, and each node was evaluated at most once.
    pub open spec fn wf(&self, g: &Graph) -> bool {
        &&& self.values@.len() == g.outputs@.len()
        &&& self.evaluated@.no_duplicates()
        &&& forall|k: int|
            0 <= k < self.evaluated@.len() ==> #[trigger] self.evaluated@[k] < g.nodes@.len()
        &&& forall|o: int|
            0 <= o < self.values@.len() && (#[trigger] self.values@[o]) is Some
                ==> self.evaluated@.contains(g.outputs@[o].node)
        &&& forall|k: int, o: int|
            0 <= k < self.evaluated@.len() && g.is_output(
                #[trigger] self.evaluated@[k] as int,
                Slot::Out,
                o,
            ) ==> (#[trigger] self.values@[o]) is Some
        &&& forall|o: int|
            0 <= o < self.values@.len() && (#[trigger] self.values@[o]) is Some
                ==> self.values@[o]->Some_0.kind() == output_kind(
                g.nodes@[g.outputs@[o].node as int].template,
            )
        &&& forall|o: int|
            0 <= o < self.values@.len() && (#[trigger] self.values@[o]) is Some ==> evaluated_to(
                g,
                self.values@,
                g.outputs@[o].node as int,
                self.values@[o]->Some_0,
            )
    }

    /// An empty cache for one pass over `g`.
    pub fn new(g: &Graph) -> (c: OutputsCache)
        requires
            g.wf(),
        ensures
            c.wf(g),
            c.evaluated@.len() == 0,
            forall|o: int| 0 <= o < c.values@.len() ==> (#[trigger] c.values@[o]) is None,
    {
        let mut values: Vec<Option<NodeValue>> = Vec::new();
        let mut k: usize = 0;
        while k < g.outputs.len()
            invariant
                k <= g.outputs@.len(),
                values@.len() == k,
                forall|o: int| 0 <= o < k ==> (#[trigger] values@[o]) is None,
            decreases g.outputs@.len() - k,
        {
            values.push(None);
            k += 1;
        }
        OutputsCache { values, evaluated: Vec::new() }
    }

    /// How many times node `n`'s template ran in this pass.
    pub fn times_evaluated(&self, n: usize) -> (r: usize)
        ensures
            r == self.evaluated@.filter(|m: usize| m == n).len(),
    {
        let mut count: usize = 0;
        let mut k: usize = 0;
        while k < self.evaluated.len()
            invariant
                k <= self.evaluated@.len(),
                count == self.evaluated@.subrange(0, k as int).filter(|m: usize| m == n).len(),
                count <= k,
            decreases self.evaluated@.len() - k,
        {
            proof {
                let pre = self.evaluated@.subrange(0, k as int);
                pre.lemma_filter_len_push(|m: usize| m == n, self.evaluated@[k as int]);
                assert(self.evaluated@.subrange(0, k as int + 1) =~= pre.push(
                    self.evaluated@[k as int],
                ));
            }
            if self.evaluated[k] == n {
                count += 1;
            }
            k += 1;
        }
        assert(self.evaluated@.subrange(0, k as int) =~= self.evaluated@);
        count
    }
}

/// What resolving input slot `i` of node `n` gives: its literal when it is
/// unconnected; otherwise the result of its producer, which must publish the
/// output under `Out` and, in the order `rank`, come before `n`.
pub open spec fn connection_result(g: &Graph, rank: Seq<nat>, n: int, i: int) -> Result<
    NodeValue,
    EvalError,
>
    decreases rank[n], 0nat, 0nat,
{
    match g.inputs@[i].connection {
        None => Ok(g.inputs@[i].value),
        Some(o) => {
            let q = g.outputs@[o as int].node as int;
            if g.outputs@[o as int].slot != Slot::Out {
                Err(EvalError::MissingOutputSlot(g.outputs@[o as int].slot))
            } else if rank[q] < rank[n] {
                node_result(g, rank, q)
            } else {
                Err(EvalError::CycleDetected(q as usize))
            }
        },
    }
}

/// The values of the first `k` declared inputs of node `n`, or the first
/// error met while resolving them in declared order: a missing slot, an
/// error of the producer, or a value of the wrong kind.
pub open spec fn inputs_result(g: &Graph, rank: Seq<nat>, n: int, k: nat) -> Result<
    Seq<NodeValue>,
    EvalError,
>
    decreases rank[n], 1nat, k,
{
    if k == 0 {
        Ok(Seq::empty())
    } else {
        match inputs_result(g, rank, n, (k - 1) as nat) {
            Err(e) => Err(e),
            Ok(vs) => {
                let s = declared_inputs(g.nodes@[n].template)[k - 1];
                if !g.has_input(n, s) {
                    Err(EvalError::MissingInputSlot(s))
                } else {
                    match connection_result(g, rank, n, g.input_of(n, s)) {
                        Err(e) => Err(e),
                        Ok(v) => if v.kind() != s.kind() {
                            Err(EvalError::ValueTypeMismatch { expected: s.kind(), found: v.kind() })
                        } else {
                            Ok(vs.push(v))
                        },
                    }
                }
            },
        }
    }
}

/// The result of evaluating node `n`: its template applied to its inputs, or
/// the first error in depth-first declared order.
pub open spec fn node_result(g: &Graph, rank: Seq<nat>, n: int) -> Result<NodeValue, EvalError>
    decreases rank[n], 2nat, 0nat,
{
    let t = g.nodes@[n].template;
    match inputs_result(g, rank, n, declared_inputs(t).len()) {
        Err(e) => Err(e),
        Ok(vs) => if g.has_output(n, Slot::Out) {
            Ok(output_of(t, vs))
        } else {
            Err(EvalError::MissingOutputSlot(Slot::Out))
        },
    }
}

/// The result of evaluating node `n` of an acyclic graph.
pub open spec fn result_of(g: &Graph, n: int) -> Result<NodeValue, EvalError> {
    node_result(g, choose|rank: Seq<nat>| #[trigger] g.ranked_by(rank), n)
}

/// Every value the cache holds is stored under an `Out` slot and is the
/// result of its node.
pub open spec fn cache_agrees(g: &Graph, rank: Seq<nat>, values: Seq<Option<NodeValue>>) -> bool {
    forall|o: int|
        0 <= o < values.len() && (#[trigger] values[o]) is Some ==> g.outputs@[o].slot == Slot::Out
            && node_result(g, rank, g.outputs@[o].node as int) == Ok::<NodeValue, EvalError>(
            values[o]->Some_0,
        )
}

proof fn lemma_inputs_error_stays(g: &Graph, rank: Seq<nat>, n: int, k: nat, m: nat)
    requires
        k <= m,
        inputs_result(g, rank, n, k) is Err,
    ensures
        inputs_result(g, rank, n, m) == inputs_result(g, rank, n, k),
    decreases m - k,
{
    if k < m {
        lemma_inputs_error_stays(g, rank, n, k, (m - 1) as nat);
    }
}

/// The nodes on the stack are distinct nodes of `g` whose evaluation has
/// begun and not yet finished.
pub open spec fn stack_ok(g: &Graph, c: &OutputsCache, stack: Seq<usize>) -> bool {
    &&& stack.no_duplicates()
    &&& forall|k: int| 0 <= k < stack.len() ==> #[trigger] stack[k] < g.nodes@.len()
    &&& forall|k: int| 0 <= k < stack.len() ==> !c.evaluated@.contains(#[trigger] stack[k])
}

/// Ranks fall strictly from the bottom of the stack to its top.
pub open spec fn stack_ranked(stack: Seq<usize>, rank: Seq<nat>) -> bool {
    forall|a: int, b: int|
        0 <= a < b < stack.len() ==> rank[#[trigger] stack[b] as int] < rank[#[trigger] stack[a] as int]
}

/// The graph property whose failure an error reports: a missing slot only
/// where the graph is not complete, a kind mismatch only where it is not well
/// typed, a cycle only where `rank` does not order it below the stack.
pub open spec fn error_allowed(g: &Graph, rank: Seq<nat>, stack: Seq<usize>, e: EvalError) -> bool {
    match e {
        EvalError::MissingInputSlot(_) | EvalError::MissingOutputSlot(_) => !g.complete(),
        EvalError::ValueTypeMismatch { expected, found } => !g.well_typed() && expected != found,
        EvalError::CycleDetected(q) => q < g.nodes@.len() && !(g.ranked_by(rank) && stack_ranked(
            stack,
            rank,
        )),
    }
}

proof fn lemma_stack_bound(s: Seq<usize>, n: int)
    requires
        0 <= n,
        s.no_duplicates(),
        forall|k: int| 0 <= k < s.len() ==> #[trigger] s[k] < n,
    ensures
        s.len() <= n,
{
    let t = s.map_values(|x: usize| x as int);
    assert(t.no_duplicates()) by {
        assert forall|i: int, j: int| 0 <= i < t.len() && 0 <= j < t.len() && i != j implies t[i]
            != t[j] by {
            assert(s[i] != s[j]);
        }
    }
    assert(t.len() == s.len());
    t.unique_seq_to_set();
    assert(t.to_set().subset_of(set_int_range(0, n))) by {
        assert forall|x: int| t.to_set().contains(x) implies set_int_range(0, n).contains(x) by {
            let k = t.index_of(x);
            assert(t[k] == s[k] as int);
        }
    }
    lemma_int_range(0, n);
    lemma_len_subset(t.to_set(), set_int_range(0, n));
}

proof fn lemma_input_unique(g: &Graph, n: int, s: Slot, i1: int, i2: int)
    requires
        g.wf(),
        0 <= n < g.nodes@.len(),
        g.is_input(n, s, i1),
        g.is_input(n, s, i2),
    ensures
        i1 == i2,
{
    let ins = g.nodes@[n].inputs@;
    let j = ins.index_of(i1 as usize);
    let k = ins.index_of(i2 as usize);
    assert(ins[j] == i1 as usize);
    assert(ins[k] == i2 as usize);
    if j < k {
        assert(g.inputs@[ins[j] as int].slot != g.inputs@[ins[k] as int].slot);
    } else if k < j {
        assert(g.inputs@[ins[k] as int].slot != g.inputs@[ins[j] as int].slot);
    }
}

proof fn lemma_evaluated_to_stable(
    g: &Graph,
    a: Seq<Option<NodeValue>>,
    b: Seq<Option<NodeValue>>,
    n: int,
    v: NodeValue,
)
    requires
        g.wf(),
        0 <= n < g.nodes@.len(),
        a.len() == g.outputs@.len(),
        extends(a, b),
        evaluated_to(g, a, n, v),
    ensures
        evaluated_to(g, b, n, v),
{
    let decl = declared_inputs(g.nodes@[n].template);
    assert forall|k: int| 0 <= k < decl.len() implies input_value(
        g,
        b,
        g.input_of(n, #[trigger] decl[k]),
    ) == input_value(g, a, g.input_of(n, decl[k])) by {
        assert(g.has_input(n, decl[k]));
        lemma_input_value_stable(g, a, b, g.input_of(n, decl[k]));
    }
    assert(node_inputs(g, b, n) =~= node_inputs(g, a, n));
    let o = choose|o: int| g.is_output(n, Slot::Out, o) && a[o] == Some(v);
    assert(b[o] == Some(v));
}

proof fn lemma_input_value_stable(
    g: &Graph,
    a: Seq<Option<NodeValue>>,
    b: Seq<Option<NodeValue>>,
    i: int,
)
    requires
        g.wf(),
        0 <= i < g.inputs@.len(),
        a.len() == g.outputs@.len(),
        extends(a, b),
        input_value(g, a, i) is Some,
    ensures
        input_value(g, b, i) == input_value(g, a, i),
{
    assert(g.inputs@[i].node < g.nodes@.len());
    if let Some(o) = g.inputs@[i].connection {
        assert(a[o as int] is Some);
    }
}

fn stack_contains(stack: &Vec<usize>, n: usize) -> (r: bool)
    ensures
        r == stack@.contains(n),
{
    let mut k: usize = 0;
    while k < stack.len()
        invariant
            k <= stack@.len(),
            forall|j: int| 0 <= j < k ==> stack@[j] != n,
        decreases stack@.len() - k,
    {
        if stack[k] == n {
            return true;
        }
        k += 1;
    }
    false
}

/// Resolves the value of input slot `i`: the inline literal when the slot is
/// unconnected; otherwise the producer's cached output, evaluating the
/// producer first when the pass has not yet done so.
fn resolve_input(
    g: &Graph,
    i: usize,
    cache: &mut OutputsCache,
    stack: &mut Vec<usize>,
    Ghost(rank): Ghost<Seq<nat>>,
) -> (r: Result<NodeValue, EvalError>)
    requires
        g.wf(),
        i < g.inputs@.len(),
        old(cache).wf(g),
        stack_ok(g, old(cache), old(stack)@),
        old(stack)@.len() > 0,
        g.inputs@[i as int].node == old(stack)@.last(),
    ensures
        final(stack)@ == old(stack)@,
        final(cache).wf(g),
        stack_ok(g, final(cache), final(stack)@),
        extends(old(cache).values@, final(cache).values@),
        r matches Ok(v) ==> input_value(g, final(cache).values@, i as int) == Some(v),
        g.well_typed() ==> (r matches Ok(v) ==> v.kind() == g.inputs@[i as int].slot.kind()),
        r matches Err(e) ==> error_allowed(g, rank, old(stack)@, e),
        g.inputs@[i as int].connection is None ==> r == Ok::<NodeValue, EvalError>(
            g.inputs@[i as int].value,
        ) && final(cache).values@ == old(cache).values@ && final(cache).evaluated@ == old(
            cache,
        ).evaluated@,
        g.inputs@[i as int].connection is Some && old(cache).values@[g.inputs@[i as int].connection->Some_0 as int] is Some
            ==> r == Ok::<NodeValue, EvalError>(
            old(cache).values@[g.inputs@[i as int].connection->Some_0 as int]->Some_0,
        ) && final(cache).values@ == old(cache).values@ && final(cache).evaluated@ == old(
            cache,
        ).evaluated@,
        g.ranked_by(rank) && stack_ranked(old(stack)@, rank) && cache_agrees(g, rank, old(cache).values@)
            ==> r == connection_result(g, rank, old(stack)@.last() as int, i as int) && cache_agrees(
            g,
            rank,
            final(cache).values@,
        ),
    decreases g.nodes@.len() - old(stack)@.len(), 0nat,
{
    let input = &g.inputs[i];
    let o = match input.connection {
        None => {
            return Ok(input.value.share());
        },
        Some(o) => o,
    };
    if let Some(v) = &cache.values[o] {
        proof {
            if g.ranked_by(rank) && stack_ranked(stack@, rank) && cache_agrees(g, rank, cache.values@) {
                assert(g.inputs@[i as int].connection is Some);
                assert(cache.values@[o as int] is Some);
            }
        }
        return Ok(v.share());
    }
    let q = g.outputs[o].node;
    let slot = g.outputs[o].slot;
    if slot != Slot::Out {
        return Err(EvalError::MissingOutputSlot(slot));
    }
    proof {
        assert(g.is_output(q as int, Slot::Out, o as int));
        if cache.evaluated@.contains(q) {
            let k = cache.evaluated@.index_of(q);
            assert(cache.values@[o as int] is Some);
        }
    }
    proof {
        if g.ranked_by(rank) && stack_ranked(stack@, rank) {
            let last = stack@.len() - 1;
            assert(g.inputs@[i as int].connection is Some);
            assert(rank[q as int] < rank[stack@[last] as int]);
            assert forall|a: int| 0 <= a < stack@.len() implies rank[q as int] < rank[
                #[trigger] stack@[a] as int] by {
                if a < last {
                    assert(rank[stack@[last] as int] < rank[stack@[a] as int]);
                }
            }
        }
    }
    if stack_contains(stack, q) {
        proof {
            if g.ranked_by(rank) && stack_ranked(stack@, rank) {
                let a = stack@.index_of(q);
                assert(rank[q as int] < rank[stack@[a] as int]);
            }
        }
        return Err(EvalError::CycleDetected(q));
    }
    proof {
        let pushed = stack@.push(q);
        assert(pushed.no_duplicates()) by {
            assert forall|a: int, b: int| 0 <= a < pushed.len() && 0 <= b < pushed.len() && a != b
                implies pushed[a] != pushed[b] by {
                if a < stack@.len() && b < stack@.len() {
                    assert(stack@[a] != stack@[b]);
                }
            }
        }
        lemma_stack_bound(pushed, g.nodes@.len() as int);
    }
    let ghost below = stack@;
    stack.push(q);
    assert(stack_ok(g, cache, stack@));
    proof {
        if g.ranked_by(rank) && stack_ranked(below, rank) {
            assert forall|a: int, b: int| 0 <= a < b < stack@.len() implies rank[
                #[trigger] stack@[b] as int] < rank[#[trigger] stack@[a] as int] by {
                if b < below.len() {
                    assert(stack@[a] == below[a] && stack@[b] == below[b]);
                } else {
                    assert(stack@[a] == below[a]);
                }
            }
        }
    }
    let r = evaluate_in_pass(g, q, cache, stack, Ghost(rank));
    stack.pop();
    match r {
        Ok(v) => {
            proof {
                let o2 = choose|o2: int|
                    g.is_output(q as int, Slot::Out, o2) && cache.values@[o2] == Some(v);
                lemma_output_unique(g, q as int, Slot::Out, o2, o as int);
            }
            Ok(v)
        },
        Err(e) => Err(e),
    }
}

/// Evaluates node `p`, the top of the stack, which this pass has not yet
/// evaluated: resolves its declared inputs in order, checks each against the
/// kind its slot carries, computes the output and stores it.
#[verifier::rlimit(100)]
fn evaluate_in_pass(
    g: &Graph,
    p: usize,
    cache: &mut OutputsCache,
    stack: &mut Vec<usize>,
    Ghost(rank): Ghost<Seq<nat>>,
) -> (r: Result<NodeValue, EvalError>)
    requires
        g.wf(),
        p < g.nodes@.len(),
        old(cache).wf(g),
        stack_ok(g, old(cache), old(stack)@),
        old(stack)@.len() > 0,
        old(stack)@.last() == p,
    ensures
        final(stack)@ == old(stack)@,
        final(cache).wf(g),
        stack_ok(g, final(cache), final(stack)@.drop_last()),
        extends(old(cache).values@, final(cache).values@),
        r matches Ok(v) ==> evaluated_to(g, final(cache).values@, p as int, v),
        r matches Err(_) ==> stack_ok(g, final(cache), final(stack)@),
        r matches Err(e) ==> error_allowed(g, rank, old(stack)@, e),
        r is Err ==> !final(cache).evaluated@.contains(p),
        g.ranked_by(rank) && stack_ranked(old(stack)@, rank) && cache_agrees(g, rank, old(cache).values@)
            ==> r == node_result(g, rank, p as int) && cache_agrees(g, rank, final(cache).values@),
    decreases g.nodes@.len() - old(stack)@.len(), 1nat,
{
    let t = g.nodes[p].template;
    let decl = t.inputs();
    let mut vals: Vec<NodeValue> = Vec::new();
    let mut k: usize = 0;
    let ghost good = g.ranked_by(rank) && stack_ranked(old(stack)@, rank) && cache_agrees(
        g,
        rank,
        old(cache).values@,
    );
    proof {
        assert(stack@[stack@.len() - 1] == p);
        assert(inputs_result(g, rank, p as int, 0) == Ok::<Seq<NodeValue>, EvalError>(vals@));
    }
    while k < decl.len()
        invariant
            good == (g.ranked_by(rank) && stack_ranked(old(stack)@, rank) && cache_agrees(
                g,
                rank,
                old(cache).values@,
            )),
            good ==> cache_agrees(g, rank, cache.values@) && inputs_result(g, rank, p as int, k as nat)
                == Ok::<Seq<NodeValue>, EvalError>(vals@),
            g.wf(),
            p < g.nodes@.len(),
            t == g.nodes@[p as int].template,
            decl@ == declared_inputs(t),
            stack@ == old(stack)@,
            stack@.len() > 0,
            stack@.last() == p,
            cache.wf(g),
            stack_ok(g, cache, stack@),
            extends(old(cache).values@, cache.values@),
            k <= decl@.len(),
            vals@.len() == k,
            forall|j: int|
                0 <= j < k ==> {
                    &&& g.has_input(p as int, #[trigger] decl@[j])
                    &&& input_value(g, cache.values@, g.input_of(p as int, decl@[j])) == Some(
                        vals@[j],
                    )
                    &&& vals@[j].kind() == decl@[j].kind()
                },
        decreases decl@.len() - k,
    {
        let s = decl[k];
        let i = match g.input_id(p, s) {
            Some(i) => i,
            None => {
                proof {
                    if good {
                        lemma_inputs_error_stays(g, rank, p as int, (k + 1) as nat, decl@.len());
                    }
                }
                return Err(EvalError::MissingInputSlot(s));
            },
        };
        proof {
            let c = g.input_of(p as int, s);
            assert(g.has_input(p as int, s));
            lemma_input_unique(g, p as int, s, c, i as int);
        }
        let ghost before = cache.values@;
        let v = match resolve_input(g, i, cache, stack, Ghost(rank)) {
            Ok(v) => v,
            Err(e) => {
                proof {
                    if good {
                        lemma_inputs_error_stays(g, rank, p as int, (k + 1) as nat, decl@.len());
                    }
                }
                return Err(e);
            },
        };
        let expected = s.value_kind();
        let found = v.value_kind();
        if expected != found {
            proof {
                assert(g.inputs@[i as int].slot == s);
                if good {
                    lemma_inputs_error_stays(g, rank, p as int, (k + 1) as nat, decl@.len());
                }
            }
            return Err(EvalError::ValueTypeMismatch { expected, found });
        }
        proof {
            assert forall|j: int| 0 <= j < k implies input_value(
                g,
                cache.values@,
                g.input_of(p as int, #[trigger] decl@[j]),
            ) == Some(vals@[j]) by {
                let c = g.input_of(p as int, decl@[j]);
                lemma_input_value_stable(g, before, cache.values@, c);
            }
        }
        vals.push(v);
        k += 1;
    }
    let ghost vs = vals@;
    proof {
        assert(node_inputs(g, cache.values@, p as int) =~= vs);
    }
    let out = t.apply(&vals);
    let o = match g.output_id(p, Slot::Out) {
        Some(o) => o,
        None => {
            proof {
                assert(!g.has_output(p as int, Slot::Out));
                assert(decl@.len() == k);
            }
            return Err(EvalError::MissingOutputSlot(Slot::Out));
        },
    };
    proof {
        assert(!cache.evaluated@.contains(p)) by {
            assert(stack@[stack@.len() - 1] == p);
        }
        if cache.values@[o as int] is Some {
            assert(g.outputs@[o as int].node == p);
        }
    }
    let ghost before = cache.values@;
    let ghost ev = cache.evaluated@;
    cache.values.set(o, Some(out.share()));
    cache.evaluated.push(p);
    proof {
        let c = &*cache;
        assert(extends(before, c.values@));
        assert(c.evaluated@.no_duplicates()) by {
            assert forall|a: int, b: int|
                0 <= a < c.evaluated@.len() && 0 <= b < c.evaluated@.len() && a != b implies c.evaluated@[a]
                != c.evaluated@[b] by {
                if a < ev.len() && b < ev.len() {
                    assert(ev[a] != ev[b]);
                } else if a < ev.len() {
                    assert(ev.contains(ev[a]));
                } else if b < ev.len() {
                    assert(ev.contains(ev[b]));
                }
            }
        }
        assert forall|m: int|
            0 <= m < c.values@.len() && (#[trigger] c.values@[m]) is Some implies c.evaluated@.contains(
            g.outputs@[m].node,
        ) by {
            if m == o {
                assert(c.evaluated@[ev.len() as int] == p);
            } else {
                assert(before[m] is Some);
                let k2 = ev.index_of(g.outputs@[m].node);
                assert(c.evaluated@[k2] == ev[k2]);
            }
        }
        assert forall|k2: int, o2: int|
            0 <= k2 < c.evaluated@.len() && g.is_output(
                #[trigger] c.evaluated@[k2] as int,
                Slot::Out,
                o2,
            ) implies (#[trigger] c.values@[o2]) is Some by {
            if k2 < ev.len() {
                assert(ev[k2] == c.evaluated@[k2]);
                assert(before[o2] is Some);
            } else {
                lemma_output_unique(g, p as int, Slot::Out, o2, o as int);
            }
        }
        assert forall|j: int| 0 <= j < k implies input_value(
            g,
            c.values@,
            g.input_of(p as int, #[trigger] decl@[j]),
        ) == Some(vals@[j]) by {
            let i2 = g.input_of(p as int, decl@[j]);
            lemma_input_value_stable(g, before, c.values@, i2);
        }
        assert(node_inputs(g, c.values@, p as int) =~= vs);
        assert(g.is_output(p as int, Slot::Out, o as int));
        assert(c.values@[o as int] == Some(out));
        assert(evaluated_to(g, c.values@, p as int, out));
        if good {
            assert(decl@.len() == k);
            assert(g.has_output(p as int, Slot::Out));
            assert(node_result(g, rank, p as int) == Ok::<NodeValue, EvalError>(out));
            assert forall|m: int| 0 <= m < c.values@.len() && (#[trigger] c.values@[m]) is Some implies g.outputs@[m].slot
                == Slot::Out && node_result(g, rank, g.outputs@[m].node as int) == Ok::<
                NodeValue,
                EvalError,
            >(c.values@[m]->Some_0) by {
                if m != o {
                    assert(before[m] is Some);
                } else {
                    assert(g.outputs@[o as int].node == p);
                }
            }
        }
        assert forall|m: int| 0 <= m < c.values@.len() && (#[trigger] c.values@[m]) is Some implies evaluated_to(
            g,
            c.values@,
            g.outputs@[m].node as int,
            c.values@[m]->Some_0,
        ) by {
            if m != o {
                assert(before[m] is Some);
                lemma_evaluated_to_stable(g, before, c.values@, g.outputs@[m].node as int, before[m]->Some_0);
            }
        }
        assert(inputs_resolved(g, c.values@, p as int));
        assert(well_kinded(t, vs));
        assert(out == output_of(t, vs));
        let sd = stack@.drop_last();
        assert forall|k2: int| 0 <= k2 < sd.len() implies !c.evaluated@.contains(#[trigger] sd[k2]) by {
            assert(sd[k2] == stack@[k2]);
            assert(stack@[k2] != stack@[stack@.len() - 1]);
            if c.evaluated@.contains(sd[k2]) {
                let a = c.evaluated@.index_of(sd[k2]);
                if a < ev.len() {
                    assert(ev.contains(stack@[k2]));
                }
            }
        }
    }
    Ok(out)
}

/// Evaluates node `node_id` and, first, every node it depends on, in one
/// pass that shares `outputs_cache`. Each node's template runs at most once
/// in the pass, however many paths lead to it; a producer already evaluated
/// is read from the cache, and an unconnected input takes its inline literal.
pub fn evaluate_node(g: &Graph, node_id: usize, outputs_cache: &mut OutputsCache) -> (r: Result<
    NodeValue,
    EvalError,
>)
    requires
        g.wf(),
        node_id < g.nodes@.len(),
        old(outputs_cache).wf(g),
        !old(outputs_cache).evaluated@.contains(node_id),
    ensures
        final(outputs_cache).wf(g),
        extends(old(outputs_cache).values@, final(outputs_cache).values@),
        r matches Ok(v) ==> evaluated_to(g, final(outputs_cache).values@, node_id as int, v),
        r matches Err(EvalError::MissingInputSlot(_)) ==> !g.complete(),
        r matches Err(EvalError::MissingOutputSlot(_)) ==> !g.complete(),
        r matches Err(EvalError::ValueTypeMismatch { expected, found }) ==> !g.well_typed()
            && expected != found,
        r matches Err(EvalError::CycleDetected(q)) ==> !g.acyclic() && q < g.nodes@.len(),
        g.complete() && g.well_typed() && g.acyclic() ==> r is Ok,
        g.acyclic() && old(outputs_cache).evaluated@.len() == 0 ==> r == result_of(g, node_id as int),
        r is Err ==> !final(outputs_cache).evaluated@.contains(node_id) && forall|o: int|
            #[trigger] g.is_output(node_id as int, Slot::Out, o) ==> final(outputs_cache).values@[o] is None,
{
    let mut stack: Vec<usize> = Vec::new();
    stack.push(node_id);
    let ghost rank = choose|rank: Seq<nat>| #[trigger] g.ranked_by(rank);
    proof {
        assert(stack@[0] == node_id);
        assert(stack_ok(g, outputs_cache, stack@));
        assert(stack_ranked(stack@, rank));
        if outputs_cache.evaluated@.len() == 0 {
            assert forall|o: int|
                0 <= o < outputs_cache.values@.len() && (#[trigger] outputs_cache.values@[o]) is Some implies false by {
                assert(outputs_cache.evaluated@.contains(g.outputs@[o].node));
            }
            assert(cache_agrees(g, rank, outputs_cache.values@));
        }
    }
    let r = evaluate_in_pass(g, node_id, outputs_cache, &mut stack, Ghost(rank));
    proof {
        if r is Err {
            assert forall|o: int| #[trigger] g.is_output(node_id as int, Slot::Out, o) implies outputs_cache.values@[o] is None by {
                if outputs_cache.values@[o] is Some {
                    let j = g.nodes@[node_id as int].outputs@.index_of(o as usize);
                    assert(g.nodes@[node_id as int].outputs@[j] == o as usize);
                    assert(g.outputs@[o].node == node_id);
                }
            }
        }
    }
    r
}

} // verus!

verus! {

/// Within one pass each node's template runs at most once: a node reached
/// along several paths is evaluated the first time and read from the cache
/// afterwards. A node whose output the pass holds was evaluated exactly once.
pub proof fn lemma_evaluated_once(g: &Graph, c: &OutputsCache, n: usize)
    requires
        c.wf(g),
    ensures
        c.evaluated@.filter(|m: usize| m == n).len() == if c.evaluated@.contains(n) {
            1int
        } else {
            0int
        },
        forall|o: int|
            0 <= o < c.values@.len() && g.outputs@[o].node == n && (#[trigger] c.values@[o]) is Some
                ==> c.evaluated@.filter(|m: usize| m == n).len() == 1,
{
    lemma_filter_unique(c.evaluated@, n);
}

proof fn lemma_filter_unique(s: Seq<usize>, n: usize)
    requires
        s.no_duplicates(),
    ensures
        s.filter(|m: usize| m == n).len() == if s.contains(n) {
            1int
        } else {
            0int
        },
    decreases s.len(),
{
    if s.len() > 0 {
        let pre = s.drop_last();
        assert(pre.no_duplicates()) by {
            assert forall|a: int, b: int| 0 <= a < pre.len() && 0 <= b < pre.len() && a != b implies pre[a]
                != pre[b] by {
                assert(s[a] != s[b]);
            }
        }
        lemma_filter_unique(pre, n);
        pre.lemma_filter_len_push(|m: usize| m == n, s.last());
        assert(pre.push(s.last()) =~= s);
        if s.last() == n {
            assert forall|k: int| 0 <= k < pre.len() implies pre[k] != n by {
                assert(s[k] != s[s.len() - 1]);
            }
        } else if s.contains(n) {
            let k = s.index_of(n);
            assert(pre[k] == n);
        } else {
            if pre.contains(n) {
                let k = pre.index_of(n);
                assert(s[k] == n);
            }
        }
    } else {
        assert(s.filter(|m: usize| m == n) =~= Seq::<usize>::empty());
    }
}

/// An input slot left unconnected contributes exactly its inline literal:
/// in a successful evaluation of node `n`, the value read for declared slot
/// number `k` is the literal that slot holds.
pub proof fn lemma_unconnected_input_reads_literal(
    g: &Graph,
    values: Seq<Option<NodeValue>>,
    n: int,
    v: NodeValue,
    k: int,
)
    requires
        g.wf(),
        0 <= n < g.nodes@.len(),
        evaluated_to(g, values, n, v),
        0 <= k < declared_inputs(g.nodes@[n].template).len(),
        g.inputs@[g.input_of(n, declared_inputs(g.nodes@[n].template)[k])].connection is None,
    ensures
        node_inputs(g, values, n)[k] == g.inputs@[g.input_of(
            n,
            declared_inputs(g.nodes@[n].template)[k],
        )].value,
{
}

/// A scale-and-bias node whose `Bias` input is unconnected and still holds
/// the literal its template declared builds its function with that default,
/// a bias of zero.
pub proof fn lemma_scale_bias_default_bias(
    g: &Graph,
    values: Seq<Option<NodeValue>>,
    n: int,
    v: NodeValue,
)
    requires
        g.wf(),
        0 <= n < g.nodes@.len(),
        g.nodes@[n].template == NodeTemplate::ScaleBias,
        evaluated_to(g, values, n, v),
        g.inputs@[g.input_of(n, Slot::Bias)].connection is None,
        g.inputs@[g.input_of(n, Slot::Bias)].value == default_literal(
            NodeTemplate::ScaleBias,
            Slot::Bias,
        ),
    ensures
        v matches NodeValue::NoiseFunction(f) && *f matches NoiseExpr::ScaleBias { bias, .. } && bias
            == Scalar::Literal(ZERO),
{
    let decl = declared_inputs(NodeTemplate::ScaleBias);
    assert(decl[1] == Slot::Bias);
    lemma_unconnected_input_reads_literal(g, values, n, v, 1);
}

proof fn lemma_passes_agree_ranked(
    g: &Graph,
    rank: Seq<nat>,
    a: &OutputsCache,
    b: &OutputsCache,
    n: int,
    v1: NodeValue,
    v2: NodeValue,
)
    requires
        g.wf(),
        g.ranked_by(rank),
        a.wf(g),
        b.wf(g),
        0 <= n < g.nodes@.len(),
        evaluated_to(g, a.values@, n, v1),
        evaluated_to(g, b.values@, n, v2),
    ensures
        v1 == v2,
    decreases rank[n],
{
    let t = g.nodes@[n].template;
    let decl = declared_inputs(t);
    assert forall|k: int| 0 <= k < decl.len() implies node_inputs(g, a.values@, n)[k] == node_inputs(
        g,
        b.values@,
        n,
    )[k] by {
        let s = decl[k];
        assert(g.has_input(n, s));
        let i = g.input_of(n, s);
        let j = g.nodes@[n].inputs@.index_of(i as usize);
        assert(g.nodes@[n].inputs@[j] == i as usize);
        assert(g.inputs@[i].node == n);
        if let Some(o) = g.inputs@[i].connection {
            let m = g.outputs@[o as int].node as int;
            assert(a.values@[o as int] is Some);
            assert(b.values@[o as int] is Some);
            assert(rank[m] < rank[n]);
            lemma_passes_agree_ranked(
                g,
                rank,
                a,
                b,
                m,
                a.values@[o as int]->Some_0,
                b.values@[o as int]->Some_0,
            );
        }
    }
    assert(node_inputs(g, a.values@, n) =~= node_inputs(g, b.values@, n));
}

/// Evaluation depends on the graph alone: two passes over the same acyclic
/// graph, each with its own cache, that both succeed on node `n` give equal
/// values.
pub proof fn lemma_passes_agree(
    g: &Graph,
    a: &OutputsCache,
    b: &OutputsCache,
    n: int,
    v1: NodeValue,
    v2: NodeValue,
)
    requires
        g.wf(),
        g.acyclic(),
        a.wf(g),
        b.wf(g),
        0 <= n < g.nodes@.len(),
        evaluated_to(g, a.values@, n, v1),
        evaluated_to(g, b.values@, n, v2),
    ensures
        v1 == v2,
{
    let rank = choose|rank: Seq<nat>| #[trigger] g.ranked_by(rank);
    lemma_passes_agree_ranked(g, rank, a, b, n, v1, v2);
}

/// An evaluated sum node yields the sum of exactly the two functions wired
/// into it, and an evaluated scale node the rescaling of its source by
/// exactly its factor: composition adds nothing and drops nothing.
pub proof fn lemma_composition_exact(g: &Graph, values: Seq<Option<NodeValue>>, n: int, v: NodeValue)
    requires
        g.wf(),
        0 <= n < g.nodes@.len(),
        evaluated_to(g, values, n, v),
    ensures
        g.nodes@[n].template == NodeTemplate::Add ==> v == NodeValue::NoiseFunction(
            std::sync::Arc::new(
                NoiseExpr::Add(
                    input_value(g, values, g.input_of(n, Slot::Source1))->Some_0.function(),
                    input_value(g, values, g.input_of(n, Slot::Source2))->Some_0.function(),
                ),
            ),
        ),
        g.nodes@[n].template == NodeTemplate::Scale ==> v == NodeValue::NoiseFunction(
            std::sync::Arc::new(
                NoiseExpr::Scale {
                    source: input_value(g, values, g.input_of(n, Slot::Source))->Some_0.function(),
                    scale: input_value(g, values, g.input_of(n, Slot::Scale))->Some_0.number(),
                },
            ),
        ),
{
}

} // verus!
