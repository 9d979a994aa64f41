//! Kahn's traversal of a graph: nodes leave a queue once all of their
//! in-neighbours have left it.

use super::lemmas::{
    lemma_distinct_nodes_bounded, lemma_pending_initial, lemma_pending_none, lemma_pending_step,
    lemma_push_contains, lemma_push_no_duplicates,
};
use super::model::{
    dependencies_first, is_partial_order, node_well_formed, pending, well_formed, GraphView,
};
use super::{graph_view, NodeData};
use std::collections::HashMap;
use std::collections::VecDeque;
use vstd::prelude::*;

verus! {

/// The keys of a map in the order in which the map yields them.
pub(crate) fn keys_of<V>(graph: &HashMap<u64, V>) -> (ids: Vec<u64>)
    ensures
        ids@.no_duplicates(),
        forall|n: u64|
            #![trigger ids@.contains(n)]
            #![trigger graph@.contains_key(n)]
            ids@.contains(n) <==> graph@.contains_key(n),
{
    let mut ids: Vec<u64> = Vec::new();
    for key in it: graph.keys()
        invariant
            ids@ == it.seq().take(it.index() as int).unref(),
            it.seq().unref().to_set() == graph@.dom(),
            it.seq().unref().no_duplicates(),
        ensures
            ids@ == it.seq().unref(),
    {
        ids.push(*key);
    }
    ids
}

/// What holds between two steps of the traversal: `order` holds the nodes
/// that left the queue, `queue` those that wait in it, and `degrees` counts
/// for each node the in-neighbours that have not left the queue yet.
spec fn between_steps(
    g: GraphView,
    order: Seq<u64>,
    queue: Seq<u64>,
    degrees: Map<u64, usize>,
) -> bool {
    &&& is_partial_order(g, order)
    &&& (order + queue).no_duplicates()
    &&& forall|i: int| 0 <= i < queue.len() ==> g.contains_key(#[trigger] queue[i])
    &&& degrees.dom() == g.dom()
    &&& forall|n: u64| #[trigger]
        g.contains_key(n) ==> degrees[n] == pending(g, order.to_set(), n).len()
    &&& forall|n: u64| #[trigger]
        g.contains_key(n) ==> (degrees[n] == 0 <==> (order + queue).contains(n))
}

/// What holds while the dependents of the last node of `order` are told
/// that it left the queue: the first `told` of them count it as done.
spec fn within_step(
    g: GraphView,
    order: Seq<u64>,
    queue: Seq<u64>,
    degrees: Map<u64, usize>,
    told: int,
) -> bool {
    &&& order.len() > 0
    &&& is_partial_order(g, order)
    &&& (order + queue).no_duplicates()
    &&& forall|i: int| 0 <= i < queue.len() ==> g.contains_key(#[trigger] queue[i])
    &&& degrees.dom() == g.dom()
    &&& forall|n: u64| #[trigger]
        g.contains_key(n) ==> degrees[n] == (if g[order.last()].out_neighbors.take(
            told,
        ).contains(n) {
            pending(g, order.to_set(), n).len()
        } else {
            pending(g, order.drop_last().to_set(), n).len()
        })
    &&& forall|n: u64| #[trigger]
        g.contains_key(n) ==> (degrees[n] == 0 <==> (order + queue).contains(n))
}

/// The elements of a sequence are those before its last, and its last.
proof fn lemma_last_joins(order: Seq<u64>)
    requires
        order.len() > 0,
    ensures
        order.to_set() == order.drop_last().to_set().insert(order.last()),
{
    assert forall|n: u64|
        order.to_set().contains(n) <==> order.drop_last().to_set().insert(order.last()).contains(
            n,
        ) by {
        if order.contains(n) {
            let i = choose|i: int| 0 <= i < order.len() && order[i] == n;
            if i < order.len() - 1 {
                assert(order.drop_last()[i] == n);
            }
        }
    }
    assert(order.to_set() =~= order.drop_last().to_set().insert(order.last()));
}

/// Taking the head of the queue to the end of the order starts a step.
proof fn lemma_step_begins(
    g: GraphView,
    order: Seq<u64>,
    queue: Seq<u64>,
    degrees: Map<u64, usize>,
)
    requires
        well_formed(g),
        between_steps(g, order, queue, degrees),
        queue.len() > 0,
    ensures
        within_step(g, order.push(queue[0]), queue.drop_first(), degrees, 0),
        order.len() < g.dom().len(),
{
    let node = queue[0];
    let next_order = order.push(node);
    let next_queue = queue.drop_first();
    assert(next_order + next_queue =~= order + queue);
    assert(next_order.drop_last() =~= order);
    assert((order + queue)[order.len() as int] == node);
    lemma_pending_none(g, order.to_set(), node);
    assert(next_order.no_duplicates()) by {
        assert forall|i: int, j: int|
            0 <= i < next_order.len() && 0 <= j < next_order.len() && i != j implies next_order[i]
            != next_order[j] by {
            assert(next_order[i] == (order + queue)[i]);
            assert(next_order[j] == (order + queue)[j]);
        }
    }
    assert forall|i: int| 0 <= i < next_order.len() implies #[trigger] dependencies_first(
        g,
        next_order,
        i,
    ) by {
        if i < order.len() {
            assert(dependencies_first(g, order, i));
        }
    }
    lemma_distinct_nodes_bounded(g, order + queue);
}

/// Telling one more dependent keeps the step going.
proof fn lemma_step_goes_on(
    g: GraphView,
    order: Seq<u64>,
    queue: Seq<u64>,
    degrees: Map<u64, usize>,
    told: int,
)
    requires
        well_formed(g),
        within_step(g, order, queue, degrees, told),
        0 <= told < g[order.last()].out_neighbors.len(),
    ensures
        ({
            let next = g[order.last()].out_neighbors[told];
            let degree = (degrees[next] - 1) as usize;
            let next_queue = if degree == 0 {
                queue.push(next)
            } else {
                queue
            };
            &&& g.contains_key(next)
            &&& degrees[next] >= 1
            &&& within_step(g, order, next_queue, degrees.insert(next, degree), told + 1)
        }),
{
    let node = order.last();
    let out = g[node].out_neighbors;
    let next = out[told];
    let before = order.drop_last().to_set();
    assert(out.contains(next));
    lemma_last_joins(order);
    lemma_pending_step(g, before, node, next);
    let degree = (degrees[next] - 1) as usize;
    let next_queue = if degree == 0 {
        queue.push(next)
    } else {
        queue
    };
    let next_degrees = degrees.insert(next, degree);
    assert(next_degrees.dom() =~= g.dom());
    assert(out.take(told + 1) =~= out.take(told).push(next));
    assert forall|n: u64| #[trigger] g.contains_key(n) implies next_degrees[n] == (if out.take(
        told + 1,
    ).contains(n) {
        pending(g, order.to_set(), n).len()
    } else {
        pending(g, before, n).len()
    }) by {
        lemma_push_contains(out.take(told), next, n);
    }
    if degree == 0 {
        lemma_push_no_duplicates(order + queue, next);
        assert forall|n: u64| #[trigger] g.contains_key(n) implies (next_degrees[n] == 0 <==> (
        order + next_queue).contains(n)) by {
            lemma_push_contains(order + queue, next, n);
        }
    }
}

/// Once every dependent was told, the step is over.
proof fn lemma_step_ends(
    g: GraphView,
    order: Seq<u64>,
    queue: Seq<u64>,
    degrees: Map<u64, usize>,
)
    requires
        well_formed(g),
        within_step(g, order, queue, degrees, g[order.last()].out_neighbors.len() as int),
    ensures
        between_steps(g, order, queue, degrees),
{
    let node = order.last();
    let out = g[node].out_neighbors;
    let before = order.drop_last().to_set();
    assert(out.take(out.len() as int) =~= out);
    lemma_last_joins(order);
    assert forall|n: u64| #[trigger] g.contains_key(n) implies degrees[n] == pending(
        g,
        order.to_set(),
        n,
    ).len() by {
        if !out.contains(n) {
            lemma_pending_step(g, before, node, n);
        }
    }
}

/// Walks the graph from the nodes without in-neighbours. Returns the
/// nodes in the order in which they left the queue, and for each node the
/// number of its in-neighbours that never left it.
pub(crate) fn walk(graph: &HashMap<u64, NodeData>) -> (result: (Vec<u64>, HashMap<u64, usize>))
    requires
        well_formed(graph_view(graph@)),
    ensures
        is_partial_order(graph_view(graph@), result.0@),
        result.1@.dom() == graph@.dom(),
        forall|n: u64| #[trigger]
            graph@.contains_key(n) ==> result.1@[n] == pending(
                graph_view(graph@),
                result.0@.to_set(),
                n,
            ).len(),
        forall|n: u64| #[trigger]
            graph@.contains_key(n) ==> (result.1@[n] == 0 <==> result.0@.contains(n)),
{
    let ghost g = graph_view(graph@);
    let ids = keys_of(graph);
    let mut degrees: HashMap<u64, usize> = HashMap::new();
    let mut queue: VecDeque<u64> = VecDeque::new();
    let mut k: usize = 0;
    while k < ids.len()
        invariant
            k <= ids.len(),
            g == graph_view(graph@),
            well_formed(g),
            ids@.no_duplicates(),
            forall|n: u64| ids@.contains(n) <==> graph@.contains_key(n),
            forall|n: u64| degrees@.contains_key(n) <==> ids@.take(k as int).contains(n),
            forall|n: u64| #[trigger]
                degrees@.contains_key(n) ==> degrees@[n] == g[n].in_neighbors.len(),
            queue@.no_duplicates(),
            forall|n: u64|
                queue@.contains(n) <==> (ids@.take(k as int).contains(n) && g[n].in_neighbors.len()
                    == 0),
        decreases ids.len() - k,
    {
        let id = ids[k];
        let ghost seen = ids@.take(k as int);
        let ghost waiting = queue@;
        assert(ids@.contains(id));
        let degree = graph.get(&id).unwrap().in_neighbors.len();
        degrees.insert(id, degree);
        if degree == 0 {
            queue.push_back(id);
        }
        proof {
            assert(ids@.take(k + 1) =~= seen.push(id));
            if degree == 0 {
                lemma_push_no_duplicates(waiting, id);
            }
            assert forall|n: u64|
                queue@.contains(n) <==> (ids@.take(k + 1).contains(n) && g[n].in_neighbors.len()
                    == 0) by {
                lemma_push_contains(seen, id, n);
                lemma_push_contains(waiting, id, n);
            }
            assert forall|n: u64| degrees@.contains_key(n) <==> ids@.take(k + 1).contains(n) by {
                lemma_push_contains(seen, id, n);
            }
        }
        k += 1;
    }
    let mut order: Vec<u64> = Vec::new();
    proof {
        assert(ids@.take(ids.len() as int) =~= ids@);
        assert(degrees@.dom() =~= g.dom());
        assert(order@.to_set() =~= Set::<u64>::empty());
        assert forall|n: u64| #[trigger] g.contains_key(n) implies degrees@[n] == pending(
            g,
            order@.to_set(),
            n,
        ).len() by {
            lemma_pending_initial(g, n);
        }
        assert forall|i: int| 0 <= i < queue@.len() implies g.contains_key(
            #[trigger] queue@[i],
        ) by {
            assert(queue@.contains(queue@[i]));
        }
    }
    while queue.len() > 0
        invariant
            g == graph_view(graph@),
            well_formed(g),
            between_steps(g, order@, queue@, degrees@),
        decreases g.dom().len() - order@.len(),
    {
        proof {
            lemma_step_begins(g, order@, queue@, degrees@);
        }
        let node = queue.pop_front().unwrap();
        order.push(node);
        let data = graph.get(&node).unwrap();
        let mut told: usize = 0;
        while told < data.out_neighbors.len()
            invariant
                g == graph_view(graph@),
                well_formed(g),
                order@.len() > 0,
                order@.last() == node,
                graph@.contains_key(node),
                *data == graph@[node],
                told <= data.out_neighbors.len(),
                within_step(g, order@, queue@, degrees@, told as int),
            decreases data.out_neighbors.len() - told,
        {
            proof {
                lemma_step_goes_on(g, order@, queue@, degrees@, told as int);
            }
            let next = data.out_neighbors[told];
            let degree = *degrees.get(&next).unwrap() - 1;
            degrees.insert(next, degree);
            if degree == 0 {
                queue.push_back(next);
            }
            told += 1;
        }
        proof {
            lemma_step_ends(g, order@, queue@, degrees@);
        }
    }
    proof {
        assert forall|n: u64| #[trigger] graph@.contains_key(n) implies (degrees@[n] == 0
            <==> order@.contains(n)) by {
            assert(g.contains_key(n));
        }
    }
    (order, degrees)
}

} // verus!
