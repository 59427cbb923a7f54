//! The structure of a flexible network: an append-only arena of nodes, the
//! designated input and output nodes, and named layers of contiguous ids.
use vstd::prelude::*;
use crate::activation::ActivationFunctionEnum;
use crate::node::{Node, NodeFetchQueueItem, value_requests, partial_requests};
use crate::relax::{
    FetchSchedule,
    RequestTable,
    walk,
    full_walk,
    ids_below,
    lemma_all_ids,
    lemma_walk_bounded,
    lemma_walk_preserves,
    lemma_walk_sorts,
    lemma_walk_answers_queue,
    lemma_walk_closed,
    answers,
};
use crate::segment::SegmentTypes;
use vstd::set_lib::set_int_range;

verus! {

/// Which way a pass runs: values flow from sources toward the outputs, and
/// partials flow from the outputs back toward the inputs.
#[derive(Clone, Copy, Debug, PartialEq, Eq, Structural)]
pub enum FetchDirection {
    Value,
    Partial,
}

/// The structure of a flexible network. Node ids are positions in the
/// arena and are never reused.
pub struct FlexibleNetwork {
    nodes: Vec<Node>,
    input_id: Vec<usize>,
    output_id: Vec<usize>,
    layer_length: Vec<(usize, usize)>,
}

/// The named layers as a map from a layer's first id to its length. The
/// entries are in the order the layers were named; a later entry with the
/// same first id replaces an earlier one.
pub open spec fn layer_map(entries: Seq<(usize, usize)>) -> Map<usize, usize>
    decreases entries.len(),
{
    if entries.len() == 0 {
        Map::empty()
    } else {
        layer_map(entries.drop_last()).insert(entries.last().0, entries.last().1)
    }
}

/// The ids `start, start + 1, ..., start + len - 1`.
pub open spec fn id_range(start: usize, len: usize) -> Seq<usize> {
    Seq::new(len as nat, |j: int| (start + j) as usize)
}

/// Every id of `ids` names one of `n` nodes.
pub open spec fn ids_in_arena(ids: Seq<usize>, n: nat) -> bool {
    forall|j: int| 0 <= j < ids.len() ==> (#[trigger] ids[j]) < n
}

/// Every layer of `entries` lies among `n` nodes.
pub open spec fn layers_in_arena(entries: Seq<(usize, usize)>, n: nat) -> bool {
    forall|j: int| 0 <= j < entries.len() ==> (#[trigger] entries[j]).0 + entries[j].1 <= n
}

/// Every value of the layer map comes from one of its entries.
pub proof fn lemma_layer_map_entry(entries: Seq<(usize, usize)>, k: usize)
    requires
        layer_map(entries).contains_key(k),
    ensures
        exists|j: int| 0 <= j < entries.len() && #[trigger] entries[j] == (k, layer_map(entries)[k]),
    decreases entries.len(),
{
    let last = entries.last();
    if last.0 == k {
        assert(entries[entries.len() - 1] == (k, layer_map(entries)[k]));
    } else {
        lemma_layer_map_entry(entries.drop_last(), k);
        let j = choose|j: int|
            0 <= j < entries.drop_last().len() && #[trigger] entries.drop_last()[j] == (
                k,
                layer_map(entries.drop_last())[k],
            );
        assert(entries[j] == entries.drop_last()[j]);
    }
}

impl FlexibleNetwork {
    pub closed spec fn nodes(&self) -> Seq<Node> {
        self.nodes@
    }

    /// The input nodes, in the order input values are given.
    pub closed spec fn input_ids(&self) -> Seq<usize> {
        self.input_id@
    }

    /// The output nodes, in the order output values are reported.
    pub closed spec fn output_ids(&self) -> Seq<usize> {
        self.output_id@
    }

    /// The named layers as `(first id, length)` in the order they were named.
    pub closed spec fn layer_entries(&self) -> Seq<(usize, usize)> {
        self.layer_length@
    }

    pub open spec fn layers(&self) -> Map<usize, usize> {
        layer_map(self.layer_entries())
    }

    pub open spec fn node_count(&self) -> nat {
        self.nodes().len()
    }

    /// The ids feeding the input slots of node `i`.
    pub open spec fn inputs_of(&self, i: int) -> Seq<usize> {
        self.nodes()[i].inputs()
    }

    /// Outgoing edge `k` of node `i` names a real input slot fed by `i`.
    pub open spec fn mirror_sound(&self, i: int, k: int) -> bool {
        let c = self.nodes()[i].consumers()[k] as int;
        let s = self.nodes()[i].consumer_slots()[k] as int;
        &&& 0 <= c < self.nodes().len()
        &&& 0 <= s < self.inputs_of(c).len()
        &&& self.inputs_of(c)[s] == i
    }

    /// Input slot `s` of node `c` is among the outgoing edges of its source.
    pub open spec fn mirror_complete(&self, c: int, s: int) -> bool {
        let src = self.inputs_of(c)[s] as int;
        exists|k: int|
            0 <= k < self.nodes()[src].consumers().len() && #[trigger] self.nodes()[src].consumers()[k]
                == c && self.nodes()[src].consumer_slots()[k] == s
    }

    /// Ids are positions, every edge joins existing nodes, the outgoing
    /// edges mirror the input slots exactly, and designated ids and layers
    /// lie inside the arena.
    pub open spec fn wf(&self) -> bool {
        let n = self.nodes().len();
        &&& forall|i: int|
            0 <= i < n ==> (#[trigger] self.nodes()[i]).wf() && self.nodes()[i].spec_id() == i
        &&& forall|i: int, s: int|
            0 <= i < n && 0 <= s < self.inputs_of(i).len() ==> (#[trigger] self.inputs_of(i)[s]) < n
        &&& forall|i: int, k: int|
            0 <= i < n && 0 <= k < self.nodes()[i].consumers().len() ==> #[trigger] self.mirror_sound(
                i,
                k,
            )
        &&& forall|c: int, s: int|
            0 <= c < n && 0 <= s < self.inputs_of(c).len() ==> #[trigger] self.mirror_complete(
                c,
                s,
            )
        &&& ids_in_arena(self.input_ids(), n)
        &&& ids_in_arena(self.output_ids(), n)
        &&& layers_in_arena(self.layer_entries(), n)
    }

    /// A named layer lies inside the arena.
    pub proof fn lemma_layer_in_bounds(&self, layer: usize)
        requires
            self.wf(),
            self.layers().contains_key(layer),
        ensures
            layer + self.layers()[layer] <= self.node_count(),
    {
        lemma_layer_map_entry(self.layer_entries(), layer);
    }

    /// An empty network.
    pub fn new() -> (r: Self)
        ensures
            r.wf(),
            r.node_count() == 0,
            r.input_ids() == Seq::<usize>::empty(),
            r.output_ids() == Seq::<usize>::empty(),
            r.layer_entries() == Seq::<(usize, usize)>::empty(),
    {
        FlexibleNetwork {
            nodes: Vec::new(),
            input_id: Vec::new(),
            output_id: Vec::new(),
            layer_length: Vec::new(),
        }
    }

    pub fn get_type(&self) -> (r: SegmentTypes)
        ensures
            r == SegmentTypes::FlexibleNetwork,
    {
        SegmentTypes::FlexibleNetwork
    }

    pub fn get_node_count(&self) -> (r: usize)
        ensures
            r == self.node_count(),
    {
        self.nodes.len()
    }

    /// The node with id `id`.
    pub fn get_node(&self, id: usize) -> (r: &Node)
        requires
            id < self.node_count(),
        ensures
            *r == self.nodes()[id as int],
    {
        &self.nodes[id]
    }

    pub fn get_input_ids(&self) -> (r: &Vec<usize>)
        ensures
            r@ == self.input_ids(),
    {
        &self.input_id
    }

    pub fn get_output_ids(&self) -> (r: &Vec<usize>)
        ensures
            r@ == self.output_ids(),
    {
        &self.output_id
    }

    /// Appends a node without edges and returns its id.
    pub fn new_node(&mut self, activation_fn_enum: ActivationFunctionEnum) -> (r: usize)
        requires
            old(self).wf(),
        ensures
            final(self).wf(),
            r == old(self).node_count(),
            final(self).nodes().len() == old(self).nodes().len() + 1,
            forall|i: int|
                0 <= i < old(self).node_count() ==> #[trigger] final(self).nodes()[i]
                    == old(self).nodes()[i],
            final(self).inputs_of(r as int) == Seq::<usize>::empty(),
            final(self).nodes()[r as int].consumers() == Seq::<usize>::empty(),
            final(self).nodes()[r as int].activation() == activation_fn_enum,
            final(self).input_ids() == old(self).input_ids(),
            final(self).output_ids() == old(self).output_ids(),
            final(self).layer_entries() == old(self).layer_entries(),
    {
        let id = self.nodes.len();
        let mut node = Node::new(id);
        node.set_activation(activation_fn_enum);
        self.nodes.push(node);
        proof {
            let n = self.nodes@.len() as int;
            assert forall|c: int, s: int|
                0 <= c < n && 0 <= s < self.inputs_of(c).len() implies #[trigger] self.mirror_complete(
                c,
                s,
            ) by {
                assert(old(self).mirror_complete(c, s));
                let src = self.inputs_of(c)[s] as int;
                let k = choose|k: int|
                    0 <= k < old(self).nodes()[src].consumers().len()
                        && #[trigger] old(self).nodes()[src].consumers()[k] == c
                        && old(self).nodes()[src].consumer_slots()[k] == s;
                assert(self.nodes()[src].consumers()[k] == c);
            }
            assert forall|i: int, k: int|
                0 <= i < n && 0 <= k < self.nodes()[i].consumers().len() implies #[trigger] self.mirror_sound(
                i,
                k,
            ) by {
                assert(old(self).mirror_sound(i, k));
            }
            assert forall|i: int, s: int|
                0 <= i < n && 0 <= s < self.inputs_of(i).len() implies (#[trigger] self.inputs_of(
                i,
            )[s]) < n by {
                assert(old(self).inputs_of(i)[s] < n - 1);
            }
            assert forall|i: int| 0 <= i < n implies (#[trigger] self.nodes()[i]).wf()
                && self.nodes()[i].spec_id() == i by {
                if i < n - 1 {
                    assert(self.nodes()[i] == old(self).nodes()[i]);
                }
            }
            lemma_frame_kept(*old(self), *self);
        }
        id
    }

    /// Adds an edge from node `from_id` into a new input slot of node
    /// `to_id`, mirrored on `from_id`, and returns the slot's index.
    pub fn connect(&mut self, from_id: usize, to_id: usize) -> (r: usize)
        requires
            old(self).wf(),
            from_id < old(self).node_count(),
            to_id < old(self).node_count(),
        ensures
            final(self).wf(),
            r == old(self).inputs_of(to_id as int).len(),
            final(self).node_count() == old(self).node_count(),
            final(self).inputs_of(to_id as int) == old(self).inputs_of(to_id as int).push(from_id),
            forall|i: int|
                0 <= i < old(self).node_count() && i != to_id ==> #[trigger] final(self).inputs_of(i)
                    == old(self).inputs_of(i),
            final(self).nodes()[from_id as int].consumers() == old(self).nodes()[from_id as int].consumers().push(
                to_id,
            ),
            final(self).nodes()[from_id as int].consumer_slots() == old(
                self,
            ).nodes()[from_id as int].consumer_slots().push(r),
            forall|i: int|
                0 <= i < old(self).node_count() && i != from_id ==> (#[trigger] final(self).nodes()[i]).consumers()
                    == old(self).nodes()[i].consumers() && final(self).nodes()[i].consumer_slots()
                    == old(self).nodes()[i].consumer_slots(),
            forall|i: int|
                0 <= i < old(self).node_count() ==> (#[trigger] final(self).nodes()[i]).activation()
                    == old(self).nodes()[i].activation(),
            final(self).input_ids() == old(self).input_ids(),
            final(self).output_ids() == old(self).output_ids(),
            final(self).layer_entries() == old(self).layer_entries(),
    {
        let index = self.nodes[to_id].new_input_source(from_id);
        self.nodes[from_id].new_output_target(to_id, index);
        proof {
            let n = self.nodes@.len() as int;
            let f = from_id as int;
            let t = to_id as int;
            assert forall|i: int| 0 <= i < n && i != f && i != t implies #[trigger] self.nodes()[i]
                == old(self).nodes()[i] by {}
            assert forall|i: int| 0 <= i < n implies (#[trigger] self.nodes()[i]).wf()
                && self.nodes()[i].spec_id() == i && self.nodes()[i].activation()
                == old(self).nodes()[i].activation() by {}
            assert forall|i: int, s: int|
                0 <= i < n && 0 <= s < self.inputs_of(i).len() implies (#[trigger] self.inputs_of(
                i,
            )[s]) < n by {
                if i != t || s < old(self).inputs_of(i).len() {
                    assert(self.inputs_of(i)[s] == old(self).inputs_of(i)[s]);
                }
            }
            assert forall|i: int, k: int|
                0 <= i < n && 0 <= k < self.nodes()[i].consumers().len() implies #[trigger] self.mirror_sound(
                i,
                k,
            ) by {
                if i != f || k < old(self).nodes()[i].consumers().len() {
                    assert(old(self).mirror_sound(i, k));
                    assert(self.nodes()[i].consumers()[k] == old(self).nodes()[i].consumers()[k]);
                    assert(self.nodes()[i].consumer_slots()[k] == old(self).nodes()[i].consumer_slots()[k]);
                    let c = self.nodes()[i].consumers()[k] as int;
                    let s = self.nodes()[i].consumer_slots()[k] as int;
                    assert(self.inputs_of(c)[s] == old(self).inputs_of(c)[s]);
                }
            }
            assert forall|c: int, s: int|
                0 <= c < n && 0 <= s < self.inputs_of(c).len() implies #[trigger] self.mirror_complete(
                c,
                s,
            ) by {
                if c == t && s == old(self).inputs_of(c).len() {
                    let k = old(self).nodes()[f].consumers().len() as int;
                    assert(self.nodes()[f].consumers()[k] == c);
                } else {
                    assert(self.inputs_of(c)[s] == old(self).inputs_of(c)[s]);
                    assert(old(self).mirror_complete(c, s));
                    let src = self.inputs_of(c)[s] as int;
                    let k = choose|k: int|
                        0 <= k < old(self).nodes()[src].consumers().len()
                            && #[trigger] old(self).nodes()[src].consumers()[k] == c
                            && old(self).nodes()[src].consumer_slots()[k] == s;
                    assert(self.nodes()[src].consumers()[k] == c);
                    assert(self.nodes()[src].consumer_slots()[k] == s);
                }
            }
        }
        proof {
            lemma_frame_kept(*old(self), *self);
        }
        index
    }

    /// The length of the layer whose first id is `layer`, if it is named.
    pub fn get_layer_length(&self, layer: usize) -> (r: Option<usize>)
        ensures
            r == (if self.layers().contains_key(layer) {
                Some(self.layers()[layer])
            } else {
                None::<usize>
            }),
    {
        let mut r: Option<usize> = None;
        let mut j: usize = 0;
        while j < self.layer_length.len()
            invariant
                j <= self.layer_length@.len(),
                r == (if layer_map(self.layer_length@.subrange(0, j as int)).contains_key(layer) {
                    Some(layer_map(self.layer_length@.subrange(0, j as int))[layer])
                } else {
                    None::<usize>
                }),
            decreases self.layer_length@.len() - j,
        {
            let (start, len) = self.layer_length[j];
            if start == layer {
                r = Some(len);
            }
            assert(self.layer_length@.subrange(0, j + 1).drop_last() =~= self.layer_length@.subrange(
                0,
                j as int,
            ));
            j = j + 1;
        }
        assert(self.layer_length@.subrange(0, j as int) =~= self.layer_length@);
        r
    }

    /// Appends `node_number` nodes without edges as a layer named by its
    /// first id, which is returned.
    pub fn new_layer(&mut self, node_number: usize, activation_fn_enum: ActivationFunctionEnum) -> (r:
        usize)
        requires
            old(self).wf(),
            old(self).node_count() + node_number <= usize::MAX,
        ensures
            final(self).wf(),
            r == old(self).node_count(),
            final(self).node_count() == old(self).node_count() + node_number,
            forall|i: int|
                0 <= i < old(self).node_count() ==> #[trigger] final(self).nodes()[i]
                    == old(self).nodes()[i],
            forall|i: int|
                old(self).node_count() <= i < final(self).node_count() ==> {
                    &&& (#[trigger] final(self).nodes()[i]).inputs() == Seq::<usize>::empty()
                    &&& final(self).nodes()[i].consumers() == Seq::<usize>::empty()
                    &&& final(self).nodes()[i].activation() == activation_fn_enum
                },
            final(self).layer_entries() == old(self).layer_entries().push((r, node_number)),
            final(self).layers() == old(self).layers().insert(r, node_number),
            final(self).input_ids() == old(self).input_ids(),
            final(self).output_ids() == old(self).output_ids(),
    {
        let id_start = self.nodes.len();
        let mut i: usize = 0;
        while i < node_number
            invariant
                self.wf(),
                i <= node_number,
                id_start == old(self).node_count(),
                id_start + node_number <= usize::MAX,
                self.node_count() == id_start + i,
                forall|k: int|
                    0 <= k < old(self).node_count() ==> #[trigger] self.nodes()[k] == old(
                        self,
                    ).nodes()[k],
                forall|k: int|
                    old(self).node_count() <= k < self.node_count() ==> {
                        &&& (#[trigger] self.nodes()[k]).inputs() == Seq::<usize>::empty()
                        &&& self.nodes()[k].consumers() == Seq::<usize>::empty()
                        &&& self.nodes()[k].activation() == activation_fn_enum
                    },
                self.layer_entries() == old(self).layer_entries(),
                self.input_ids() == old(self).input_ids(),
                self.output_ids() == old(self).output_ids(),
            decreases node_number - i,
        {
            self.new_node(activation_fn_enum);
            i = i + 1;
        }
        let ghost before_entry = *self;
        self.layer_length.push((id_start, node_number));
        proof {
            let n = self.node_count();
            assert forall|j: int| 0 <= j < self.layer_entries().len() implies (#[trigger] self.layer_entries()[j]).0
                + self.layer_entries()[j].1 <= n by {
                if j < old(self).layer_entries().len() {
                    assert(self.layer_entries()[j] == old(self).layer_entries()[j]);
                }
            }
            assert(self.layer_entries().drop_last() =~= old(self).layer_entries());
            lemma_wf_frame(before_entry, *self);
        }
        id_start
    }

    /// Adds an edge from every node of the layer `from_layer` to every node
    /// of the layer `to_layer`: each node of the target layer gains, in new
    /// input slots, one input from each node of the source layer in id order.
    pub fn connect_layer(&mut self, from_layer: usize, to_layer: usize)
        requires
            old(self).wf(),
            old(self).layers().contains_key(from_layer),
            old(self).layers().contains_key(to_layer),
        ensures
            final(self).wf(),
            final(self).node_count() == old(self).node_count(),
            forall|t: int|
                0 <= t < old(self).node_count() ==> #[trigger] final(self).inputs_of(t) == if to_layer
                    <= t < to_layer + old(self).layers()[to_layer] {
                    old(self).inputs_of(t) + id_range(from_layer, old(self).layers()[from_layer])
                } else {
                    old(self).inputs_of(t)
                },
            forall|i: int|
                0 <= i < old(self).node_count() ==> (#[trigger] final(self).nodes()[i]).activation()
                    == old(self).nodes()[i].activation(),
            final(self).input_ids() == old(self).input_ids(),
            final(self).output_ids() == old(self).output_ids(),
            final(self).layer_entries() == old(self).layer_entries(),
    {
        let from_len = self.get_layer_length(from_layer).unwrap();
        let to_len = self.get_layer_length(to_layer).unwrap();
        proof {
            old(self).lemma_layer_in_bounds(from_layer);
            old(self).lemma_layer_in_bounds(to_layer);
        }
        let ghost n = self.node_count();
        let count = self.nodes.len();
        let mut fi: usize = 0;
        while fi < from_len
            invariant
                self.wf(),
                fi <= from_len,
                n == old(self).node_count(),
                n == count,
                self.node_count() == n,
                from_layer + from_len <= n,
                to_layer + to_len <= n,
                forall|t: int|
                    0 <= t < n ==> #[trigger] self.inputs_of(t) == if to_layer <= t < to_layer
                        + to_len {
                        old(self).inputs_of(t) + id_range(from_layer, fi)
                    } else {
                        old(self).inputs_of(t)
                    },
                forall|i: int|
                    0 <= i < n ==> (#[trigger] self.nodes()[i]).activation() == old(
                        self,
                    ).nodes()[i].activation(),
                self.input_ids() == old(self).input_ids(),
                self.output_ids() == old(self).output_ids(),
                self.layer_entries() == old(self).layer_entries(),
            decreases from_len - fi,
        {
            let mut ti: usize = 0;
            while ti < to_len
                invariant
                    self.wf(),
                    fi < from_len,
                    ti <= to_len,
                    n == old(self).node_count(),
                    n == count,
                    self.node_count() == n,
                    from_layer + from_len <= n,
                    to_layer + to_len <= n,
                    forall|t: int|
                        0 <= t < n ==> #[trigger] self.inputs_of(t) == if to_layer <= t < to_layer
                            + ti {
                            old(self).inputs_of(t) + id_range(from_layer, (fi + 1) as usize)
                        } else if to_layer + ti <= t < to_layer + to_len {
                            old(self).inputs_of(t) + id_range(from_layer, fi)
                        } else {
                            old(self).inputs_of(t)
                        },
                    forall|i: int|
                        0 <= i < n ==> (#[trigger] self.nodes()[i]).activation() == old(
                            self,
                        ).nodes()[i].activation(),
                    self.input_ids() == old(self).input_ids(),
                    self.output_ids() == old(self).output_ids(),
                    self.layer_entries() == old(self).layer_entries(),
                decreases to_len - ti,
            {
                let t = to_layer + ti;
                self.connect(from_layer + fi, t);
                assert(id_range(from_layer, fi).push((from_layer + fi) as usize) =~= id_range(
                    from_layer,
                    (fi + 1) as usize,
                ));
                ti = ti + 1;
            }
            fi = fi + 1;
        }
    }

    /// Appends `input_id` to the designated input nodes.
    pub fn set_input_id(&mut self, input_id: Vec<usize>)
        requires
            old(self).wf(),
            forall|j: int| 0 <= j < input_id.len() ==> #[trigger] input_id[j] < old(self).node_count(),
        ensures
            final(self).wf(),
            final(self).input_ids() == old(self).input_ids() + input_id@,
            final(self).nodes() == old(self).nodes(),
            final(self).output_ids() == old(self).output_ids(),
            final(self).layer_entries() == old(self).layer_entries(),
    {
        let ghost given = input_id@;
        let ghost before = *self;
        let mut ids = input_id;
        self.input_id.append(&mut ids);
        proof {
            let n = self.node_count();
            assert forall|j: int| 0 <= j < self.input_ids().len() implies (#[trigger] self.input_ids()[j]) < n by {
                if j >= old(self).input_ids().len() {
                    assert(self.input_ids()[j] == given[j - old(self).input_ids().len()]);
                }
            }
            lemma_wf_frame(before, *self);
        }
    }

    /// Appends `output_id` to the designated output nodes.
    pub fn set_output_id(&mut self, output_id: Vec<usize>)
        requires
            old(self).wf(),
            forall|j: int| 0 <= j < output_id.len() ==> #[trigger] output_id[j] < old(self).node_count(),
        ensures
            final(self).wf(),
            final(self).output_ids() == old(self).output_ids() + output_id@,
            final(self).nodes() == old(self).nodes(),
            final(self).input_ids() == old(self).input_ids(),
            final(self).layer_entries() == old(self).layer_entries(),
    {
        let ghost given = output_id@;
        let ghost before = *self;
        let mut ids = output_id;
        self.output_id.append(&mut ids);
        proof {
            let n = self.node_count();
            assert forall|j: int| 0 <= j < self.output_ids().len() implies (#[trigger] self.output_ids()[j]) < n by {
                if j >= old(self).output_ids().len() {
                    assert(self.output_ids()[j] == given[j - old(self).output_ids().len()]);
                }
            }
            lemma_wf_frame(before, *self);
        }
    }

    /// Makes the layer whose first id is `input_layer` the designated inputs.
    pub fn set_input_layer(&mut self, input_layer: usize)
        requires
            old(self).wf(),
            old(self).layers().contains_key(input_layer),
        ensures
            final(self).wf(),
            final(self).input_ids() == id_range(input_layer, old(self).layers()[input_layer]),
            final(self).nodes() == old(self).nodes(),
            final(self).output_ids() == old(self).output_ids(),
            final(self).layer_entries() == old(self).layer_entries(),
    {
        let len = self.get_layer_length(input_layer).unwrap();
        let count = self.nodes.len();
        proof {
            self.lemma_layer_in_bounds(input_layer);
        }
        let ghost before = *self;
        self.input_id = layer_ids(input_layer, len);
        proof {
            let n = self.node_count();
            assert forall|j: int| 0 <= j < self.input_ids().len() implies (#[trigger] self.input_ids()[j]) < n by {}
            lemma_wf_frame(before, *self);
        }
    }

    /// Makes the layer whose first id is `output_layer` the designated outputs.
    pub fn set_output_layer(&mut self, output_layer: usize)
        requires
            old(self).wf(),
            old(self).layers().contains_key(output_layer),
        ensures
            final(self).wf(),
            final(self).output_ids() == id_range(output_layer, old(self).layers()[output_layer]),
            final(self).nodes() == old(self).nodes(),
            final(self).input_ids() == old(self).input_ids(),
            final(self).layer_entries() == old(self).layer_entries(),
    {
        let len = self.get_layer_length(output_layer).unwrap();
        let count = self.nodes.len();
        proof {
            self.lemma_layer_in_bounds(output_layer);
        }
        let ghost before = *self;
        self.output_id = layer_ids(output_layer, len);
        proof {
            let n = self.node_count();
            assert forall|j: int| 0 <= j < self.output_ids().len() implies (#[trigger] self.output_ids()[j]) < n by {}
            lemma_wf_frame(before, *self);
        }
    }

    /// The requests node `i` makes when a pass in direction `dir` expands it:
    /// a value pass asks each input slot's source; a partial pass asks each
    /// consumer for the partial it holds for this node.
    pub open spec fn requests_of(&self, dir: FetchDirection, i: int) -> Seq<NodeFetchQueueItem> {
        match dir {
            FetchDirection::Value => value_requests(i as usize, self.inputs_of(i)),
            FetchDirection::Partial => partial_requests(
                i as usize,
                self.nodes()[i].consumers(),
                self.nodes()[i].consumer_slots(),
            ),
        }
    }

    pub open spec fn request_table(&self, dir: FetchDirection) -> RequestTable {
        Seq::new(self.node_count(), |i: int| self.requests_of(dir, i))
    }

    /// The requests of the nodes `ids`, one node after another.
    pub open spec fn requests_of_all(&self, dir: FetchDirection, ids: Seq<usize>) -> Seq<
        NodeFetchQueueItem,
    >
        decreases ids.len(),
    {
        if ids.len() == 0 {
            Seq::empty()
        } else {
            self.requests_of_all(dir, ids.drop_last()) + self.requests_of(dir, ids.last() as int)
        }
    }

    /// Where a pass starts: a value pass from the requests of the output
    /// nodes, a partial pass from those of the input nodes.
    pub open spec fn pass_seeds(&self, dir: FetchDirection) -> Seq<NodeFetchQueueItem> {
        match dir {
            FetchDirection::Value => self.requests_of_all(dir, self.output_ids()),
            FetchDirection::Partial => self.requests_of_all(dir, self.input_ids()),
        }
    }

    /// The ready and deferred requests of a whole pass in direction `dir`.
    pub open spec fn pass(&self, dir: FetchDirection) -> (
        Seq<NodeFetchQueueItem>,
        Seq<NodeFetchQueueItem>,
    ) {
        full_walk(self.request_table(dir), self.pass_seeds(dir))
    }

    /// `item` asks along a real edge of this network. For a value request,
    /// slot `to_index` of `to_id` is fed by `from_id`; for a partial request,
    /// slot `to_index` of `from_id` is fed by `to_id`.
    pub open spec fn is_edge_request(&self, dir: FetchDirection, item: NodeFetchQueueItem) -> bool {
        let n = self.node_count();
        match dir {
            FetchDirection::Value => {
                &&& item.to_id < n
                &&& item.to_index < self.inputs_of(item.to_id as int).len()
                &&& self.inputs_of(item.to_id as int)[item.to_index as int] == item.from_id
                &&& item.from_id < n
            },
            FetchDirection::Partial => {
                &&& item.from_id < n
                &&& item.to_index < self.inputs_of(item.from_id as int).len()
                &&& self.inputs_of(item.from_id as int)[item.to_index as int] == item.to_id
                &&& item.to_id < n
            },
        }
    }

    /// Every request a node of a well-formed network makes is along an edge.
    proof fn lemma_requests_are_edges(&self, dir: FetchDirection, i: int)
        requires
            self.wf(),
            0 <= i < self.node_count(),
            self.node_count() <= usize::MAX,
        ensures
            forall|k: int|
                0 <= k < self.requests_of(dir, i).len() ==> self.is_edge_request(
                    dir,
                    #[trigger] self.requests_of(dir, i)[k],
                ),
    {
        assert forall|k: int| 0 <= k < self.requests_of(dir, i).len() implies self.is_edge_request(
            dir,
            #[trigger] self.requests_of(dir, i)[k],
        ) by {
            match dir {
                FetchDirection::Value => {
                    assert(self.inputs_of(i)[k] < self.node_count());
                },
                FetchDirection::Partial => {
                    assert(self.mirror_sound(i, k));
                },
            }
        }
    }

    /// Every starting request of a pass over a well-formed network is along an edge.
    proof fn lemma_seeds_are_edges(&self, dir: FetchDirection)
        requires
            self.wf(),
            self.node_count() <= usize::MAX,
        ensures
            forall|j: int|
                0 <= j < self.pass_seeds(dir).len() ==> self.is_edge_request(
                    dir,
                    #[trigger] self.pass_seeds(dir)[j],
                ),
    {
        let ids = match dir {
            FetchDirection::Value => self.output_ids(),
            FetchDirection::Partial => self.input_ids(),
        };
        self.lemma_requests_of_all_are_edges(dir, ids);
    }

    proof fn lemma_requests_of_all_are_edges(&self, dir: FetchDirection, ids: Seq<usize>)
        requires
            self.wf(),
            self.node_count() <= usize::MAX,
            ids_in_arena(ids, self.node_count()),
        ensures
            forall|j: int|
                0 <= j < self.requests_of_all(dir, ids).len() ==> self.is_edge_request(
                    dir,
                    #[trigger] self.requests_of_all(dir, ids)[j],
                ),
        decreases ids.len(),
    {
        if ids.len() > 0 {
            let front = ids.drop_last();
            let last = ids.last() as int;
            assert(ids_in_arena(front, self.node_count())) by {
                assert forall|j: int| 0 <= j < front.len() implies (#[trigger] front[j]) < self.node_count() by {
                    assert(front[j] == ids[j]);
                }
            }
            self.lemma_requests_of_all_are_edges(dir, front);
            self.lemma_requests_are_edges(dir, last);
            let a = self.requests_of_all(dir, front);
            let b = self.requests_of(dir, last);
            assert forall|j: int| 0 <= j < (a + b).len() implies self.is_edge_request(
                dir,
                #[trigger] (a + b)[j],
            ) by {
                if j < a.len() {
                    assert((a + b)[j] == a[j]);
                } else {
                    assert((a + b)[j] == b[j - a.len()]);
                }
            }
        }
    }

    /// The requests node `id` makes when a pass in direction `dir` expands it.
    fn requests(&self, dir: FetchDirection, id: usize) -> (r: Vec<NodeFetchQueueItem>)
        requires
            self.wf(),
            id < self.node_count(),
        ensures
            r@ == self.requests_of(dir, id as int),
    {
        match dir {
            FetchDirection::Value => self.nodes[id].fetch_value(),
            FetchDirection::Partial => self.nodes[id].fetch_partial(),
        }
    }

    /// Whether node `id` makes no requests in direction `dir`.
    fn makes_no_requests(&self, dir: FetchDirection, id: usize) -> (r: bool)
        requires
            id < self.node_count(),
        ensures
            r == (self.requests_of(dir, id as int).len() == 0),
    {
        match dir {
            FetchDirection::Value => self.nodes[id].input_count() == 0,
            FetchDirection::Partial => self.nodes[id].output_count() == 0,
        }
    }

    /// The requests that start a pass in direction `dir`.
    fn seeds(&self, dir: FetchDirection) -> (r: Vec<NodeFetchQueueItem>)
        requires
            self.wf(),
        ensures
            r@ == self.pass_seeds(dir),
            forall|j: int| 0 <= j < r@.len() ==> self.is_edge_request(dir, #[trigger] r@[j]),
    {
        let ids: &Vec<usize> = match dir {
            FetchDirection::Value => &self.output_id,
            FetchDirection::Partial => &self.input_id,
        };
        let n = self.nodes.len();
        let mut r: Vec<NodeFetchQueueItem> = Vec::new();
        let mut j: usize = 0;
        while j < ids.len()
            invariant
                self.wf(),
                n == self.node_count(),
                j <= ids@.len(),
                ids@ == (match dir {
                    FetchDirection::Value => self.output_ids(),
                    FetchDirection::Partial => self.input_ids(),
                }),
                r@ == self.requests_of_all(dir, ids@.subrange(0, j as int)),
                forall|k: int| 0 <= k < r@.len() ==> self.is_edge_request(dir, #[trigger] r@[k]),
            decreases ids@.len() - j,
        {
            let id = ids[j];
            let mut more = self.requests(dir, id);
            proof {
                self.lemma_requests_are_edges(dir, id as int);
            }
            let ghost before = r@;
            r.append(&mut more);
            proof {
                assert(ids@.subrange(0, j + 1).drop_last() =~= ids@.subrange(0, j as int));
                assert forall|k: int| 0 <= k < r@.len() implies self.is_edge_request(
                    dir,
                    #[trigger] r@[k],
                ) by {
                    if k >= before.len() {
                        assert(r@[k] == self.requests_of(dir, id as int)[k - before.len()]);
                    } else {
                        assert(r@[k] == before[k]);
                    }
                }
            }
            j = j + 1;
        }
        assert(ids@.subrange(0, j as int) =~= ids@);
        r
    }

    /// Plans one pass in direction `dir` by demand-driven relaxation: which
    /// requests are answered at once, and which are deferred (to be
    /// answered last to first). Every planned request is along an edge.
    pub fn fetch_schedule(&self, dir: FetchDirection) -> (r: FetchSchedule)
        requires
            self.wf(),
        ensures
            r.ready@ == self.pass(dir).0,
            r.deferred@ == self.pass(dir).1,
            forall|j: int|
                0 <= j < r.ready@.len() ==> self.is_edge_request(dir, #[trigger] r.ready@[j]),
            forall|j: int|
                0 <= j < r.deferred@.len() ==> self.is_edge_request(dir, #[trigger] r.deferred@[j]),
    {
        let n = self.nodes.len();
        let ghost table = self.request_table(dir);
        let ghost total = self.pass(dir);
        let mut planned: Vec<bool> = Vec::new();
        while planned.len() < n
            invariant
                planned@.len() <= n,
                forall|i: int| 0 <= i < planned@.len() ==> !(#[trigger] planned@[i]),
            decreases n - planned@.len(),
        {
            planned.push(false);
        }
        let mut queue = self.seeds(dir);
        let mut head: usize = 0;
        let mut ready: Vec<NodeFetchQueueItem> = Vec::new();
        let mut deferred: Vec<NodeFetchQueueItem> = Vec::new();
        let ghost mut unexpanded = set_int_range(0, n as int);
        proof {
            lemma_all_ids(n as int);
            assert(queue@.subrange(0, queue@.len() as int) =~= queue@);
        }
        while head < queue.len()
            invariant
                self.wf(),
                n == self.node_count(),
                table == self.request_table(dir),
                total == self.pass(dir),
                planned@.len() == n,
                head <= queue@.len(),
                unexpanded.finite(),
                ids_below(unexpanded, n as int),
                forall|i: int| 0 <= i < n ==> (#[trigger] planned@[i] <==> !unexpanded.contains(i)),
                forall|j: int| 0 <= j < queue@.len() ==> self.is_edge_request(dir, #[trigger] queue@[j]),
                forall|j: int| 0 <= j < ready@.len() ==> self.is_edge_request(dir, #[trigger] ready@[j]),
                forall|j: int|
                    0 <= j < deferred@.len() ==> self.is_edge_request(dir, #[trigger] deferred@[j]),
                ready@ + walk(table, queue@.subrange(head as int, queue@.len() as int), unexpanded).0
                    == total.0,
                deferred@ + walk(table, queue@.subrange(head as int, queue@.len() as int), unexpanded).1
                    == total.1,
            decreases unexpanded.len(), queue@.len() - head,
        {
            let item = queue[head];
            let from = item.from_id;
            let ghost q = queue@.subrange(head as int, queue@.len() as int);
            let ghost rest = queue@.subrange(head + 1, queue@.len() as int);
            proof {
                assert(q[0] == item);
                assert(q.drop_first() =~= rest);
                assert(table[from as int] == self.requests_of(dir, from as int));
            }
            if self.makes_no_requests(dir, from) || from == item.to_id {
                proof {
                    assert(ready@.push(item) + walk(table, rest, unexpanded).0 =~= ready@ + walk(
                        table,
                        q,
                        unexpanded,
                    ).0);
                }
                ready.push(item);
            } else {
                proof {
                    assert(deferred@.push(item) + walk(table, rest, unexpanded).1 =~= deferred@ + (seq![item]
                        + walk(table, rest, unexpanded).1));
                }
                let ghost d0 = deferred@;
                deferred.push(item);
                if !planned[from] {
                    let mut more = self.requests(dir, from);
                    proof {
                        self.lemma_requests_are_edges(dir, from as int);
                        assert(d0.push(item) + walk(
                            table,
                            rest + table[from as int],
                            unexpanded.remove(from as int),
                        ).1 =~= d0 + walk(table, q, unexpanded).1);
                    }
                    let ghost q0 = queue@;
                    queue.append(&mut more);
                    planned.set(from, true);
                    proof {
                        assert(queue@.subrange(head + 1, queue@.len() as int) =~= rest
                            + table[from as int]);
                        assert forall|j: int| 0 <= j < queue@.len() implies self.is_edge_request(
                            dir,
                            #[trigger] queue@[j],
                        ) by {
                            if j >= q0.len() {
                                assert(queue@[j] == self.requests_of(dir, from as int)[j - q0.len()]);
                            } else {
                                assert(queue@[j] == q0[j]);
                            }
                        }
                        unexpanded = unexpanded.remove(from as int);
                    }
                } else {
                    proof {
                        assert(queue@.subrange(head + 1, queue@.len() as int) =~= rest);
                    }
                }
            }
            head = head + 1;
        }
        proof {
            assert(queue@.subrange(head as int, queue@.len() as int) =~= Seq::<NodeFetchQueueItem>::empty());
            assert(ready@ + Seq::<NodeFetchQueueItem>::empty() =~= ready@);
            assert(deferred@ + Seq::<NodeFetchQueueItem>::empty() =~= deferred@);
        }
        FetchSchedule { ready, deferred }
    }

    /// The named layers as `(first id, length)`, in the order they were named.
    pub fn get_layer_entries(&self) -> (r: &Vec<(usize, usize)>)
        ensures
            r@ == self.layer_entries(),
    {
        &self.layer_length
    }

    /// Names the `len` ids from `start` on as a layer.
    pub fn name_layer(&mut self, start: usize, len: usize)
        requires
            old(self).wf(),
            start + len <= old(self).node_count(),
        ensures
            final(self).wf(),
            final(self).layer_entries() == old(self).layer_entries().push((start, len)),
            final(self).nodes() == old(self).nodes(),
            final(self).input_ids() == old(self).input_ids(),
            final(self).output_ids() == old(self).output_ids(),
    {
        let ghost before = *self;
        self.layer_length.push((start, len));
        proof {
            let n = self.node_count();
            assert forall|j: int| 0 <= j < self.layer_entries().len() implies (#[trigger] self.layer_entries()[j]).0
                + self.layer_entries()[j].1 <= n by {
                if j < before.layer_entries().len() {
                    assert(self.layer_entries()[j] == before.layer_entries()[j]);
                }
            }
            lemma_wf_frame(before, *self);
        }
    }
}

/// The ids of a layer, in order.
fn layer_ids(start: usize, len: usize) -> (r: Vec<usize>)
    requires
        start + len <= usize::MAX,
    ensures
        r@ == id_range(start, len),
{
    let mut r: Vec<usize> = Vec::new();
    let mut j: usize = 0;
    while j < len
        invariant
            j <= len,
            start + len <= usize::MAX,
            r@ == id_range(start, j),
        decreases len - j,
    {
        r.push(start + j);
        j = j + 1;
        assert(r@ =~= id_range(start, j));
    }
    r
}

/// A pass over any well-formed network ends, cycles and self-loops
/// included: when no node makes more than `d` requests in its direction,
/// the pass answers at most its starting requests plus `d` for each node,
/// since each node is expanded at most once.
pub proof fn lemma_pass_bounded(g: FlexibleNetwork, dir: FetchDirection, d: nat)
    requires
        g.wf(),
        forall|i: int| 0 <= i < g.node_count() ==> #[trigger] g.requests_of(dir, i).len() <= d,
    ensures
        g.pass(dir).0.len() + g.pass(dir).1.len() <= g.pass_seeds(dir).len() + g.node_count() * d,
{
    let table = g.request_table(dir);
    lemma_all_ids(g.node_count() as int);
    assert forall|i: int| 0 <= i < table.len() implies #[trigger] table[i].len() <= d by {
        assert(table[i] == g.requests_of(dir, i));
    }
    lemma_walk_bounded(table, g.pass_seeds(dir), set_int_range(0, g.node_count() as int), d);
}

/// What a pass over a well-formed network answers, in either direction:
/// every request it starts from; a request at once exactly when its source
/// makes no requests or it is a node's request of itself; and, for every
/// deferred request, all the requests its source makes. So a value pass
/// reaches every edge that the outputs depend on through nodes with
/// inputs, and a partial pass every edge from the inputs on toward the
/// outputs. Every answered request is along an edge.
pub proof fn lemma_pass_reaches_dependencies(g: FlexibleNetwork, dir: FetchDirection)
    requires
        g.wf(),
        g.node_count() <= usize::MAX,
    ensures
        forall|j: int|
            0 <= j < g.pass_seeds(dir).len() ==> answers(g.pass(dir), #[trigger] g.pass_seeds(dir)[j]),
        forall|j: int|
            0 <= j < g.pass(dir).0.len() ==> g.is_edge_request(dir, #[trigger] g.pass(dir).0[j]) && (
            g.requests_of(dir, g.pass(dir).0[j].from_id as int).len() == 0 || g.pass(dir).0[j].from_id
                == g.pass(dir).0[j].to_id),
        forall|j: int|
            0 <= j < g.pass(dir).1.len() ==> g.is_edge_request(dir, #[trigger] g.pass(dir).1[j]) && g.requests_of(
                dir,
                g.pass(dir).1[j].from_id as int,
            ).len() > 0 && g.pass(dir).1[j].from_id != g.pass(dir).1[j].to_id,
        forall|j: int, k: int|
            0 <= j < g.pass(dir).1.len() && 0 <= k < g.requests_of(
                dir,
                g.pass(dir).1[j].from_id as int,
            ).len() ==> answers(
                g.pass(dir),
                #[trigger] g.requests_of(dir, #[trigger] g.pass(dir).1[j].from_id as int)[k],
            ),
{
    let n = g.node_count() as int;
    let table = g.request_table(dir);
    let seeds = g.pass_seeds(dir);
    let all = set_int_range(0, n);
    let w = g.pass(dir);
    let p = |item: NodeFetchQueueItem| g.is_edge_request(dir, item);
    lemma_all_ids(n);
    g.lemma_seeds_are_edges(dir);
    assert forall|i: int, k: int| 0 <= i < table.len() && 0 <= k < table[i].len() implies p(
        #[trigger] table[i][k],
    ) by {
        g.lemma_requests_are_edges(dir, i);
        assert(table[i] == g.requests_of(dir, i));
    }
    lemma_walk_preserves(table, seeds, all, p);
    lemma_walk_sorts(table, seeds, all);
    lemma_walk_answers_queue(table, seeds, all);
    lemma_walk_closed(table, seeds, all);
    assert forall|j: int| 0 <= j < w.0.len() implies g.is_edge_request(dir, #[trigger] w.0[j]) && (
    g.requests_of(dir, w.0[j].from_id as int).len() == 0 || w.0[j].from_id == w.0[j].to_id) by {
        assert(p(w.0[j]));
        assert(table[w.0[j].from_id as int] == g.requests_of(dir, w.0[j].from_id as int));
    }
    assert forall|j: int| 0 <= j < w.1.len() implies g.is_edge_request(dir, #[trigger] w.1[j])
        && g.requests_of(dir, w.1[j].from_id as int).len() > 0 && w.1[j].from_id != w.1[j].to_id by {
        assert(p(w.1[j]));
        assert(table[w.1[j].from_id as int] == g.requests_of(dir, w.1[j].from_id as int));
    }
    assert forall|j: int, k: int|
        0 <= j < w.1.len() && 0 <= k < g.requests_of(dir, w.1[j].from_id as int).len() implies answers(
        w,
        #[trigger] g.requests_of(dir, #[trigger] w.1[j].from_id as int)[k],
    ) by {
        let f = w.1[j].from_id as int;
        assert(p(w.1[j]));
        assert(table[f] == g.requests_of(dir, f));
        assert(all.contains(f));
        assert(answers(w, table[w.1[j].from_id as int][k]));
    }
}

/// Well-formedness depends on the nodes only through the arena, so a
/// network whose designated ids and layers change keeps it when they still
/// lie inside the arena.
proof fn lemma_wf_frame(before: FlexibleNetwork, after: FlexibleNetwork)
    requires
        before.wf(),
        after.nodes() == before.nodes(),
        ids_in_arena(after.input_ids(), after.node_count()),
        ids_in_arena(after.output_ids(), after.node_count()),
        layers_in_arena(after.layer_entries(), after.node_count()),
    ensures
        after.wf(),
{
    assert forall|i: int, s: int|
        0 <= i < after.node_count() && 0 <= s < after.inputs_of(i).len() implies (#[trigger] after.inputs_of(
        i,
    )[s]) < after.node_count() by {
        assert(before.inputs_of(i)[s] < before.node_count());
    }
    assert forall|i: int| 0 <= i < after.node_count() implies (#[trigger] after.nodes()[i]).wf()
        && after.nodes()[i].spec_id() == i by {
        assert(before.nodes()[i].wf());
    }
    assert forall|i: int, k: int|
        0 <= i < after.node_count() && 0 <= k < after.nodes()[i].consumers().len() implies #[trigger] after.mirror_sound(
        i,
        k,
    ) by {
        assert(before.mirror_sound(i, k));
    }
    assert forall|c: int, s: int|
        0 <= c < after.node_count() && 0 <= s < after.inputs_of(c).len() implies #[trigger] after.mirror_complete(
        c,
        s,
    ) by {
        assert(before.mirror_complete(c, s));
    }
}

/// Designated ids and layers that lay inside an arena still do after it grows.
proof fn lemma_frame_kept(before: FlexibleNetwork, after: FlexibleNetwork)
    requires
        before.wf(),
        before.node_count() <= after.node_count(),
        after.input_ids() == before.input_ids(),
        after.output_ids() == before.output_ids(),
        after.layer_entries() == before.layer_entries(),
    ensures
        ids_in_arena(after.input_ids(), after.node_count()),
        ids_in_arena(after.output_ids(), after.node_count()),
        layers_in_arena(after.layer_entries(), after.node_count()),
{
    assert forall|j: int| 0 <= j < after.input_ids().len() implies (#[trigger] after.input_ids()[j])
        < after.node_count() by {
        assert(before.input_ids()[j] < before.node_count());
    }
    assert forall|j: int| 0 <= j < after.output_ids().len() implies (#[trigger] after.output_ids()[j])
        < after.node_count() by {
        assert(before.output_ids()[j] < before.node_count());
    }
    assert forall|j: int| 0 <= j < after.layer_entries().len() implies (#[trigger] after.layer_entries()[j]).0
        + after.layer_entries()[j].1 <= after.node_count() by {
        assert(before.layer_entries()[j].0 + before.layer_entries()[j].1 <= before.node_count());
    }
}

} // verus!
