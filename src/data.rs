//! The structural part of a network's persisted form, and the conversions
//! between it and a network.
use vstd::prelude::*;
use crate::activation::ActivationFunctionEnum;
use crate::network::{FlexibleNetwork, ids_in_arena, layers_in_arena};

verus! {

/// One node as persisted: its id, the ids feeding its input slots in slot
/// order, and its activation tag.
pub struct NodeData {
    pub id: usize,
    pub i_id: Vec<usize>,
    pub a_fn: ActivationFunctionEnum,
}

/// A network's structure as persisted: its nodes in id order, its input
/// and output ids, and its named layers as `(first id, length)`.
pub struct FlexibleNetworkData {
    pub ns: Vec<NodeData>,
    pub i_id: Vec<usize>,
    pub o_id: Vec<usize>,
    pub l_len: Vec<(usize, usize)>,
}

/// Why persisted data does not describe a network.
#[derive(Clone, Copy, Debug, PartialEq, Eq, Structural)]
pub enum NetworkDataError {
    /// A node's id is not its position, or one of its inputs names no node.
    BadNode,
    /// An input or output id names no node, or a layer reaches past the last node.
    BadDesignation,
}

impl FlexibleNetworkData {
    /// Data without nodes, designations or layers.
    pub fn new() -> (r: Self)
        ensures
            r.ns@.len() == 0,
            r.i_id@.len() == 0,
            r.o_id@.len() == 0,
            r.l_len@.len() == 0,
    {
        FlexibleNetworkData { ns: Vec::new(), i_id: Vec::new(), o_id: Vec::new(), l_len: Vec::new() }
    }

    /// Each node's id is its position and each of its inputs names a node.
    pub open spec fn nodes_valid(&self) -> bool {
        forall|k: int|
            0 <= k < self.ns@.len() ==> (#[trigger] self.ns@[k]).id == k && ids_in_arena(
                self.ns@[k].i_id@,
                self.ns@.len(),
            )
    }

    /// The designated ids and the layers lie among the nodes.
    pub open spec fn designations_valid(&self) -> bool {
        &&& ids_in_arena(self.i_id@, self.ns@.len())
        &&& ids_in_arena(self.o_id@, self.ns@.len())
        &&& layers_in_arena(self.l_len@, self.ns@.len())
    }

    /// This data records exactly the structure of `g`.
    pub open spec fn describes(&self, g: FlexibleNetwork) -> bool {
        &&& self.ns@.len() == g.node_count()
        &&& forall|k: int|
            0 <= k < self.ns@.len() ==> {
                &&& (#[trigger] self.ns@[k]).id == k
                &&& self.ns@[k].i_id@ == g.inputs_of(k)
                &&& self.ns@[k].a_fn == g.nodes()[k].activation()
            }
        &&& self.i_id@ == g.input_ids()
        &&& self.o_id@ == g.output_ids()
        &&& self.l_len@ == g.layer_entries()
    }
}

/// Two networks with the same nodes, edges into each slot, activations,
/// designations and layers. Only the order in which a node's outgoing
/// edges are listed may differ.
pub open spec fn same_structure(a: FlexibleNetwork, b: FlexibleNetwork) -> bool {
    &&& a.node_count() == b.node_count()
    &&& forall|k: int|
        0 <= k < a.node_count() ==> #[trigger] a.inputs_of(k) == b.inputs_of(k)
            && a.nodes()[k].activation() == b.nodes()[k].activation()
    &&& a.input_ids() == b.input_ids()
    &&& a.output_ids() == b.output_ids()
    &&& a.layer_entries() == b.layer_entries()
}

fn copy_vec<T: Copy>(v: &Vec<T>) -> (r: Vec<T>)
    ensures
        r@ == v@,
{
    let mut r: Vec<T> = Vec::new();
    let mut j: usize = 0;
    while j < v.len()
        invariant
            j <= v@.len(),
            r@ == v@.subrange(0, j as int),
        decreases v@.len() - j,
    {
        r.push(v[j]);
        j = j + 1;
        assert(r@ =~= v@.subrange(0, j as int));
    }
    assert(v@.subrange(0, j as int) =~= v@);
    r
}

/// Whether every id of `ids` is below `n`.
fn all_below(ids: &Vec<usize>, n: usize) -> (r: bool)
    ensures
        r == ids_in_arena(ids@, n as nat),
{
    let mut j: usize = 0;
    while j < ids.len()
        invariant
            j <= ids@.len(),
            forall|k: int| 0 <= k < j ==> #[trigger] ids@[k] < n,
        decreases ids@.len() - j,
    {
        if ids[j] >= n {
            return false;
        }
        j = j + 1;
    }
    true
}

/// Whether `data` describes a network: `BadNode` when a node's id is not
/// its position or one of its inputs names no node, else `BadDesignation`
/// when a designated id or a layer lies outside the nodes.
fn check_data(data: &FlexibleNetworkData) -> (r: Result<(), NetworkDataError>)
    ensures
        r == (if !data.nodes_valid() {
            Err(NetworkDataError::BadNode)
        } else if !data.designations_valid() {
            Err(NetworkDataError::BadDesignation)
        } else {
            Ok(())
        }),
{
        let n = data.ns.len();
        let mut k: usize = 0;
        while k < n
            invariant
                n == data.ns@.len(),
                k <= n,
                forall|j: int|
                    0 <= j < k ==> (#[trigger] data.ns@[j]).id == j && ids_in_arena(
                        data.ns@[j].i_id@,
                        n as nat,
                    ),
            decreases n - k,
        {
            if data.ns[k].id != k || !all_below(&data.ns[k].i_id, n) {
                return Err(NetworkDataError::BadNode);
            }
            k = k + 1;
        }
        if !all_below(&data.i_id, n) || !all_below(&data.o_id, n) {
            return Err(NetworkDataError::BadDesignation);
        }
        let mut j: usize = 0;
        while j < data.l_len.len()
            invariant
                data.nodes_valid(),
                ids_in_arena(data.i_id@, n as nat),
                ids_in_arena(data.o_id@, n as nat),
                n == data.ns@.len(),
                j <= data.l_len@.len(),
                forall|i: int| 0 <= i < j ==> (#[trigger] data.l_len@[i]).0 + data.l_len@[i].1 <= n,
            decreases data.l_len@.len() - j,
        {
            let (start, len) = data.l_len[j];
            if start > n || len > n - start {
                assert(data.l_len@[j as int].0 + data.l_len@[j as int].1 > n);
                return Err(NetworkDataError::BadDesignation);
            }
            j = j + 1;
        }
        Ok(())
}

impl FlexibleNetwork {
    /// The structure of this network in its persisted form.
    pub fn export_data(&self) -> (r: FlexibleNetworkData)
        requires
            self.wf(),
        ensures
            r.describes(*self),
    {
        let n = self.get_node_count();
        let mut ns: Vec<NodeData> = Vec::new();
        let mut id: usize = 0;
        while id < n
            invariant
                self.wf(),
                n == self.node_count(),
                id <= n,
                ns@.len() == id,
                forall|k: int|
                    0 <= k < id ==> {
                        &&& (#[trigger] ns@[k]).id == k
                        &&& ns@[k].i_id@ == self.inputs_of(k)
                        &&& ns@[k].a_fn == self.nodes()[k].activation()
                    },
            decreases n - id,
        {
            let node = self.get_node(id);
            ns.push(
                NodeData {
                    id,
                    i_id: copy_vec(node.input_ids()),
                    a_fn: node.get_activation(),
                },
            );
            id = id + 1;
        }
        FlexibleNetworkData {
            ns,
            i_id: copy_vec(self.get_input_ids()),
            o_id: copy_vec(self.get_output_ids()),
            l_len: copy_vec(self.get_layer_entries()),
        }
    }

    /// Replaces this network by the one `data` describes. Fails, leaving
    /// the network as it was, when a node's id is not its position or an
    /// input names no node (`BadNode`), or else when a designated id or a
    /// layer lies outside the nodes (`BadDesignation`).
    pub fn import_data(&mut self, data: &FlexibleNetworkData) -> (r: Result<(), NetworkDataError>)
        requires
            old(self).wf(),
        ensures
            final(self).wf(),
            r == (if !data.nodes_valid() {
                Err(NetworkDataError::BadNode)
            } else if !data.designations_valid() {
                Err(NetworkDataError::BadDesignation)
            } else {
                Ok(())
            }),
            r is Ok ==> data.describes(*final(self)),
            r is Err ==> *final(self) == *old(self),
    {
        if let Err(e) = check_data(data) {
            return Err(e);
        }
        let n = data.ns.len();
        let mut g = FlexibleNetwork::new();
        let mut k: usize = 0;
        while k < n
            invariant
                g.wf(),
                n == data.ns@.len(),
                k <= n,
                g.node_count() == k,
                forall|c: int| 0 <= c < k ==> #[trigger] g.inputs_of(c) == Seq::<usize>::empty(),
                forall|c: int|
                    0 <= c < k ==> (#[trigger] g.nodes()[c]).activation() == data.ns@[c].a_fn,
                g.input_ids().len() == 0,
                g.output_ids().len() == 0,
                g.layer_entries().len() == 0,
            decreases n - k,
        {
            let ghost before = g;
            g.new_node(data.ns[k].a_fn);
            proof {
                assert forall|c: int| 0 <= c < k + 1 implies #[trigger] g.inputs_of(c)
                    == Seq::<usize>::empty() && g.nodes()[c].activation() == data.ns@[c].a_fn by {
                    if c < k {
                        assert(g.nodes()[c] == before.nodes()[c]);
                        assert(before.inputs_of(c) == Seq::<usize>::empty());
                        assert(before.nodes()[c].activation() == data.ns@[c].a_fn);
                    } else {
                        assert(c == before.node_count());
                    }
                }
            }
            k = k + 1;
        }
        let mut k: usize = 0;
        while k < n
            invariant
                g.wf(),
                data.nodes_valid(),
                n == data.ns@.len(),
                k <= n,
                g.node_count() == n,
                forall|c: int|
                    0 <= c < n ==> #[trigger] g.inputs_of(c) == if c < k {
                        data.ns@[c].i_id@
                    } else {
                        Seq::<usize>::empty()
                    },
                forall|c: int|
                    0 <= c < n ==> (#[trigger] g.nodes()[c]).activation() == data.ns@[c].a_fn,
                g.input_ids().len() == 0,
                g.output_ids().len() == 0,
                g.layer_entries().len() == 0,
            decreases n - k,
        {
            let inputs = &data.ns[k].i_id;
            let mut s: usize = 0;
            while s < inputs.len()
                invariant
                    g.wf(),
                    data.nodes_valid(),
                    n == data.ns@.len(),
                    k < n,
                    *inputs == data.ns@[k as int].i_id,
                    s <= inputs@.len(),
                    g.node_count() == n,
                    forall|c: int|
                        0 <= c < n ==> #[trigger] g.inputs_of(c) == if c < k {
                            data.ns@[c].i_id@
                        } else if c == k {
                            inputs@.subrange(0, s as int)
                        } else {
                            Seq::<usize>::empty()
                        },
                    forall|c: int|
                        0 <= c < n ==> (#[trigger] g.nodes()[c]).activation() == data.ns@[c].a_fn,
                    g.input_ids().len() == 0,
                    g.output_ids().len() == 0,
                    g.layer_entries().len() == 0,
                decreases inputs@.len() - s,
            {
                proof {
                    assert(data.ns@[k as int].id == k);
                    assert(inputs@[s as int] < n);
                }
                g.connect(inputs[s], k);
                assert(inputs@.subrange(0, s as int).push(inputs@[s as int]) =~= inputs@.subrange(
                    0,
                    s + 1,
                ));
                s = s + 1;
            }
            assert(inputs@.subrange(0, s as int) =~= inputs@);
            k = k + 1;
        }
        let ghost wired = g;
        g.set_input_id(copy_vec(&data.i_id));
        g.set_output_id(copy_vec(&data.o_id));
        proof {
            assert(g.nodes() == wired.nodes());
            assert forall|c: int| 0 <= c < n implies #[trigger] g.inputs_of(c) == data.ns@[c].i_id@
                && g.nodes()[c].activation() == data.ns@[c].a_fn by {
                assert(wired.inputs_of(c) == data.ns@[c].i_id@);
                assert(wired.nodes()[c].activation() == data.ns@[c].a_fn);
            }
            assert(g.input_ids() =~= data.i_id@);
            assert(g.output_ids() =~= data.o_id@);
            assert(g.layer_entries() =~= data.l_len@.subrange(0, 0));
        }
        let mut j: usize = 0;
        while j < data.l_len.len()
            invariant
                g.wf(),
                data.nodes_valid(),
                data.designations_valid(),
                n == data.ns@.len(),
                g.node_count() == n,
                j <= data.l_len@.len(),
                g.layer_entries() == data.l_len@.subrange(0, j as int),
                forall|c: int|
                    0 <= c < n ==> #[trigger] g.inputs_of(c) == data.ns@[c].i_id@,
                forall|c: int|
                    0 <= c < n ==> (#[trigger] g.nodes()[c]).activation() == data.ns@[c].a_fn,
                g.input_ids() == data.i_id@,
                g.output_ids() == data.o_id@,
            decreases data.l_len@.len() - j,
        {
            let (start, len) = data.l_len[j];
            assert(data.l_len@[j as int].0 + data.l_len@[j as int].1 <= n);
            let ghost before = g;
            g.name_layer(start, len);
            proof {
                assert forall|c: int| 0 <= c < n implies #[trigger] g.inputs_of(c)
                    == data.ns@[c].i_id@ && g.nodes()[c].activation() == data.ns@[c].a_fn by {
                    assert(before.inputs_of(c) == data.ns@[c].i_id@);
                    assert(before.nodes()[c].activation() == data.ns@[c].a_fn);
                }
            }
            assert(data.l_len@.subrange(0, j as int).push(data.l_len@[j as int]) =~= data.l_len@.subrange(
                0,
                j + 1,
            ));
            j = j + 1;
        }
        assert(data.l_len@.subrange(0, j as int) =~= data.l_len@);
        *self = g;
        Ok(())
    }
}

/// Persisting a well-formed network and reading the data back gives a
/// network of the same structure: the exported data always passes the
/// import's checks, and every network it describes has that structure.
pub proof fn lemma_export_import_round_trip(
    g: FlexibleNetwork,
    data: FlexibleNetworkData,
    h: FlexibleNetwork,
)
    requires
        g.wf(),
        data.describes(g),
        data.describes(h),
    ensures
        data.nodes_valid(),
        data.designations_valid(),
        same_structure(g, h),
{
    assert forall|k: int| 0 <= k < data.ns@.len() implies (#[trigger] data.ns@[k]).id == k
        && ids_in_arena(data.ns@[k].i_id@, data.ns@.len()) by {
        assert forall|s: int| 0 <= s < data.ns@[k].i_id@.len() implies (
        #[trigger] data.ns@[k].i_id@[s]) < data.ns@.len() by {
            assert(g.inputs_of(k)[s] < g.node_count());
        }
    }
    assert forall|k: int| 0 <= k < g.node_count() implies #[trigger] g.inputs_of(k) == h.inputs_of(k)
        && g.nodes()[k].activation() == h.nodes()[k].activation() by {
        assert(data.ns@[k].i_id@ == g.inputs_of(k));
    }
}

} // verus!
