//! Demand-driven relaxation: the order in which requests along edges are
//! answered during one pass over a graph.
//!
//! A pass starts from a queue of requests. A request whose source has no
//! requests of its own, or that a node makes of itself, is answered at once
//! ("ready"). Any other request is deferred; the first time a source is
//! deferred its own requests join the end of the queue, and the source is
//! never expanded again in that pass. Deferred requests are answered
//! afterwards in the reverse of the order they were deferred in, so a node
//! on a cycle is seen by its consumer one pass late.
use vstd::prelude::*;
use vstd::set_lib::*;
use crate::node::NodeFetchQueueItem;

verus! {

/// The outcome of planning one pass: the requests answerable at once, and
/// the deferred ones in the order they were deferred (they are to be
/// answered last to first).
pub struct FetchSchedule {
    pub ready: Vec<NodeFetchQueueItem>,
    pub deferred: Vec<NodeFetchQueueItem>,
}

/// The requests that each node makes when it is expanded, by node id.
pub type RequestTable = Seq<Seq<NodeFetchQueueItem>>;

/// The pass over `queue` in which the nodes of `unexpanded` may still be
/// expanded: the ready requests and the deferred requests, each in the order
/// the queue reaches them.
pub open spec fn walk(
    table: RequestTable,
    queue: Seq<NodeFetchQueueItem>,
    unexpanded: Set<int>,
) -> (Seq<NodeFetchQueueItem>, Seq<NodeFetchQueueItem>)
    decreases unexpanded.len(), queue.len(),
{
    if queue.len() == 0 || !unexpanded.finite() {
        (Seq::empty(), Seq::empty())
    } else {
        let item = queue[0];
        let rest = queue.drop_first();
        let from = item.from_id as int;
        if table[from].len() == 0 || item.from_id == item.to_id {
            let r = walk(table, rest, unexpanded);
            (seq![item] + r.0, r.1)
        } else if unexpanded.contains(from) {
            let r = walk(table, rest + table[from], unexpanded.remove(from));
            (r.0, seq![item] + r.1)
        } else {
            let r = walk(table, rest, unexpanded);
            (r.0, seq![item] + r.1)
        }
    }
}

/// A whole pass from `seeds`, with every node of the table expandable.
pub open spec fn full_walk(table: RequestTable, seeds: Seq<NodeFetchQueueItem>) -> (
    Seq<NodeFetchQueueItem>,
    Seq<NodeFetchQueueItem>,
) {
    walk(table, seeds, set_int_range(0, table.len() as int))
}

/// Every id in `s` is a node of a table with `n` rows.
pub open spec fn ids_below(s: Set<int>, n: int) -> bool {
    forall|i: int| #[trigger] s.contains(i) ==> 0 <= i < n
}

/// A pass answers at most the requests it started with plus `d` more for
/// each node it may still expand, when no node makes more than `d` requests.
pub proof fn lemma_walk_bounded(
    table: RequestTable,
    queue: Seq<NodeFetchQueueItem>,
    unexpanded: Set<int>,
    d: nat,
)
    requires
        ids_below(unexpanded, table.len() as int),
        forall|i: int| 0 <= i < table.len() ==> #[trigger] table[i].len() <= d,
    ensures
        walk(table, queue, unexpanded).0.len() + walk(table, queue, unexpanded).1.len()
            <= queue.len() + unexpanded.len() * d,
    decreases unexpanded.len(), queue.len(),
{
    if queue.len() == 0 || !unexpanded.finite() {
    } else {
        let item = queue[0];
        let rest = queue.drop_first();
        let from = item.from_id as int;
        if table[from].len() == 0 || item.from_id == item.to_id {
            lemma_walk_bounded(table, rest, unexpanded, d);
        } else if unexpanded.contains(from) {
            let smaller = unexpanded.remove(from);
            lemma_walk_bounded(table, rest + table[from], smaller, d);
            let m = smaller.len();
            assert(unexpanded.len() == m + 1);
            assert((m + 1) * d == m * d + d) by (nonlinear_arith);
        } else {
            lemma_walk_bounded(table, rest, unexpanded, d);
        }
    }
}

/// Each request a pass answers comes from the queue it started with or
/// from the requests of a node it expanded; so a property shared by all of
/// those holds of every request the pass answers.
pub proof fn lemma_walk_preserves(
    table: RequestTable,
    queue: Seq<NodeFetchQueueItem>,
    unexpanded: Set<int>,
    p: spec_fn(NodeFetchQueueItem) -> bool,
)
    requires
        ids_below(unexpanded, table.len() as int),
        forall|j: int| 0 <= j < queue.len() ==> p(#[trigger] queue[j]),
        forall|i: int, k: int|
            0 <= i < table.len() && 0 <= k < table[i].len() ==> p(#[trigger] table[i][k]),
    ensures
        forall|j: int| 0 <= j < walk(table, queue, unexpanded).0.len() ==> p(
            #[trigger] walk(table, queue, unexpanded).0[j],
        ),
        forall|j: int| 0 <= j < walk(table, queue, unexpanded).1.len() ==> p(
            #[trigger] walk(table, queue, unexpanded).1[j],
        ),
    decreases unexpanded.len(), queue.len(),
{
    if queue.len() > 0 && unexpanded.finite() {
        let item = queue[0];
        let rest = queue.drop_first();
        let from = item.from_id as int;
        let w = walk(table, queue, unexpanded);
        assert forall|j: int| 0 <= j < rest.len() implies p(#[trigger] rest[j]) by {
            assert(rest[j] == queue[j + 1]);
        }
        let (next, u) = if answered_at_once(table, item) || !unexpanded.contains(from) {
            (rest, unexpanded)
        } else {
            (rest + table[from], unexpanded.remove(from))
        };
        assert forall|j: int| 0 <= j < next.len() implies p(#[trigger] next[j]) by {
            if j < rest.len() {
                assert(next[j] == rest[j]);
            } else {
                assert(next[j] == table[from][j - rest.len()]);
            }
        }
        lemma_walk_preserves(table, next, u, p);
        let r = walk(table, next, u);
        if answered_at_once(table, item) {
            assert(w.0 == seq![item] + r.0 && w.1 == r.1);
            assert forall|j: int| 0 < j < w.0.len() implies p(#[trigger] w.0[j]) by {
                assert(w.0[j] == r.0[j - 1]);
            }
        } else {
            assert(w.0 == r.0 && w.1 == seq![item] + r.1);
            assert forall|j: int| 0 < j < w.1.len() implies p(#[trigger] w.1[j]) by {
                assert(w.1[j] == r.1[j - 1]);
            }
        }
    }
}

/// A request is answered at once exactly when its source makes no
/// requests or it is a node's request of itself.
pub open spec fn answered_at_once(table: RequestTable, item: NodeFetchQueueItem) -> bool {
    table[item.from_id as int].len() == 0 || item.from_id == item.to_id
}

/// Whether the pass result `w` answers `item`, at once or deferred.
pub open spec fn answers(
    w: (Seq<NodeFetchQueueItem>, Seq<NodeFetchQueueItem>),
    item: NodeFetchQueueItem,
) -> bool {
    w.0.contains(item) || w.1.contains(item)
}

/// Ready requests are those answered at once, deferred ones the others.
pub proof fn lemma_walk_sorts(table: RequestTable, queue: Seq<NodeFetchQueueItem>, unexpanded: Set<int>)
    ensures
        forall|j: int|
            0 <= j < walk(table, queue, unexpanded).0.len() ==> answered_at_once(
                table,
                #[trigger] walk(table, queue, unexpanded).0[j],
            ),
        forall|j: int|
            0 <= j < walk(table, queue, unexpanded).1.len() ==> !answered_at_once(
                table,
                #[trigger] walk(table, queue, unexpanded).1[j],
            ),
    decreases unexpanded.len(), queue.len(),
{
    if queue.len() == 0 || !unexpanded.finite() {
    } else {
        let item = queue[0];
        let rest = queue.drop_first();
        let from = item.from_id as int;
        let w = walk(table, queue, unexpanded);
        if answered_at_once(table, item) {
            lemma_walk_sorts(table, rest, unexpanded);
            assert(w.1 == walk(table, rest, unexpanded).1);
            assert forall|j: int| 0 < j < w.0.len() implies answered_at_once(table, #[trigger] w.0[j]) by {
                assert(w.0[j] == walk(table, rest, unexpanded).0[j - 1]);
            }
        } else {
            let r = if unexpanded.contains(from) {
                lemma_walk_sorts(table, rest + table[from], unexpanded.remove(from));
                walk(table, rest + table[from], unexpanded.remove(from))
            } else {
                lemma_walk_sorts(table, rest, unexpanded);
                walk(table, rest, unexpanded)
            };
            assert(w.0 == r.0);
            assert(w.1 == seq![item] + r.1);
            assert(w.1[0] == item);
            assert forall|j: int| 0 < j < w.1.len() implies !answered_at_once(table, #[trigger] w.1[j]) by {
                assert(w.1[j] == r.1[j - 1]);
            }
        }
    }
}

/// Every request on the queue is answered by the pass.
pub proof fn lemma_walk_answers_queue(
    table: RequestTable,
    queue: Seq<NodeFetchQueueItem>,
    unexpanded: Set<int>,
)
    requires
        unexpanded.finite(),
    ensures
        forall|j: int|
            0 <= j < queue.len() ==> answers(walk(table, queue, unexpanded), #[trigger] queue[j]),
    decreases unexpanded.len(), queue.len(),
{
    if queue.len() > 0 {
        let item = queue[0];
        let rest = queue.drop_first();
        let from = item.from_id as int;
        let w = walk(table, queue, unexpanded);
        let (next, u) = if answered_at_once(table, item) || !unexpanded.contains(from) {
            (rest, unexpanded)
        } else {
            (rest + table[from], unexpanded.remove(from))
        };
        lemma_walk_answers_queue(table, next, u);
        let r = walk(table, next, u);
        if answered_at_once(table, item) {
            assert(w.0 == seq![item] + r.0 && w.1 == r.1);
            assert(w.0[0] == item);
        } else {
            assert(w.0 == r.0 && w.1 == seq![item] + r.1);
            assert(w.1[0] == item);
        }
        assert forall|j: int| 0 <= j < queue.len() implies answers(w, #[trigger] queue[j]) by {
            if j > 0 {
                assert(queue[j] == next[j - 1]);
                assert(answers(r, next[j - 1]));
                if r.0.contains(queue[j]) {
                    let k = choose|k: int| 0 <= k < r.0.len() && r.0[k] == queue[j];
                    if answered_at_once(table, item) {
                        assert(w.0[k + 1] == queue[j]);
                    } else {
                        assert(w.0[k] == queue[j]);
                    }
                } else {
                    let k = choose|k: int| 0 <= k < r.1.len() && r.1[k] == queue[j];
                    if answered_at_once(table, item) {
                        assert(w.1[k] == queue[j]);
                    } else {
                        assert(w.1[k + 1] == queue[j]);
                    }
                }
            }
        }
    }
}

/// Whenever a pass defers a request to an expandable node, it also answers
/// every request that node makes: the pass reaches everything a deferred
/// node depends on.
pub proof fn lemma_walk_closed(table: RequestTable, queue: Seq<NodeFetchQueueItem>, unexpanded: Set<int>)
    requires
        unexpanded.finite(),
    ensures
        forall|j: int, k: int|
            0 <= j < walk(table, queue, unexpanded).1.len() && unexpanded.contains(
                walk(table, queue, unexpanded).1[j].from_id as int,
            ) && 0 <= k < table[walk(table, queue, unexpanded).1[j].from_id as int].len()
                ==> answers(
                walk(table, queue, unexpanded),
                #[trigger] table[#[trigger] walk(table, queue, unexpanded).1[j].from_id as int][k],
            ),
    decreases unexpanded.len(), queue.len(),
{
    if queue.len() > 0 {
        let item = queue[0];
        let rest = queue.drop_first();
        let from = item.from_id as int;
        let w = walk(table, queue, unexpanded);
        let expands = !answered_at_once(table, item) && unexpanded.contains(from);
        let (next, u) = if expands {
            (rest + table[from], unexpanded.remove(from))
        } else {
            (rest, unexpanded)
        };
        lemma_walk_closed(table, next, u);
        lemma_walk_answers_queue(table, next, u);
        let r = walk(table, next, u);
        let shift: int = if answered_at_once(table, item) { 0 } else { 1 };
        if answered_at_once(table, item) {
            assert(w.0 == seq![item] + r.0 && w.1 == r.1);
        } else {
            assert(w.0 == r.0 && w.1 == seq![item] + r.1);
        }
        assert forall|x: NodeFetchQueueItem| answers(r, x) implies answers(w, x) by {
            if r.0.contains(x) {
                let k = choose|k: int| 0 <= k < r.0.len() && r.0[k] == x;
                if answered_at_once(table, item) {
                    assert(w.0[k + 1] == x);
                } else {
                    assert(w.0[k] == x);
                }
            } else {
                let k = choose|k: int| 0 <= k < r.1.len() && r.1[k] == x;
                assert(w.1[k + shift] == x);
            }
        }
        assert forall|j: int, k: int|
            0 <= j < w.1.len() && unexpanded.contains(w.1[j].from_id as int) && 0 <= k
                < table[w.1[j].from_id as int].len() implies answers(
            w,
            #[trigger] table[#[trigger] w.1[j].from_id as int][k],
        ) by {
            let f = w.1[j].from_id as int;
            if j == 0 && shift == 1 {
                assert(w.1[0] == item);
                assert(next[rest.len() + k] == table[f][k]);
                assert(answers(r, next[rest.len() + k]));
            } else {
                let jr = j - shift;
                assert(w.1[j] == r.1[jr]);
                if expands && f == from {
                    assert(next[rest.len() + k] == table[f][k]);
                    assert(answers(r, next[rest.len() + k]));
                } else {
                    assert(u.contains(f));
                    assert(answers(r, table[r.1[jr].from_id as int][k]));
                }
            }
        }
    }
}

/// The range of node ids `[0, n)` is a finite set of `n` ids.
pub proof fn lemma_all_ids(n: int)
    requires
        0 <= n,
    ensures
        set_int_range(0, n).finite(),
        set_int_range(0, n).len() == n,
        ids_below(set_int_range(0, n), n),
{
    lemma_int_range(0, n);
}

} // verus!
