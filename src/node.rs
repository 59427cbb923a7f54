//! The structural side of a single node: where its inputs come from and
//! where its value goes.
use vstd::prelude::*;
use crate::activation::ActivationFunctionEnum;

verus! {

/// A request that `to_id` makes of `from_id` for the value (or partial)
/// that travels along one edge. `to_index` is the slot that identifies the
/// edge: in a value request it is the input slot of `to_id`; in a partial
/// request it is the input slot of `from_id` that `to_id` feeds.
#[derive(Clone, Copy, Debug, PartialEq, Eq, Structural)]
pub struct NodeFetchQueueItem {
    pub from_id: usize,
    pub to_id: usize,
    pub to_index: usize,
}

/// One node of a flexible network: its id, the ids feeding each input slot,
/// a mirror of the slots it feeds in other nodes, and its activation tag.
pub struct Node {
    id: usize,
    input_id: Vec<usize>,
    output_id: Vec<usize>,
    output_index: Vec<usize>,
    activation_fn_enum: ActivationFunctionEnum,
}

/// The value requests of node `id` whose input slots are fed by `inputs`:
/// one per slot, in slot order.
pub open spec fn value_requests(id: usize, inputs: Seq<usize>) -> Seq<NodeFetchQueueItem> {
    Seq::new(
        inputs.len(),
        |k: int| NodeFetchQueueItem { from_id: inputs[k], to_id: id, to_index: k as usize },
    )
}

/// The partial requests of node `id` that feeds slot `slots[k]` of node
/// `consumers[k]`: one per outgoing edge, in the order the edges were made.
pub open spec fn partial_requests(id: usize, consumers: Seq<usize>, slots: Seq<usize>) -> Seq<
    NodeFetchQueueItem,
> {
    Seq::new(
        consumers.len(),
        |k: int| NodeFetchQueueItem { from_id: consumers[k], to_id: id, to_index: slots[k] },
    )
}

impl Node {
    pub closed spec fn spec_id(&self) -> usize {
        self.id
    }

    /// The ids feeding the input slots, in slot order.
    pub closed spec fn inputs(&self) -> Seq<usize> {
        self.input_id@
    }

    /// The consumers of this node, one per outgoing edge.
    pub closed spec fn consumers(&self) -> Seq<usize> {
        self.output_id@
    }

    /// For each outgoing edge, the input slot it occupies in its consumer.
    pub closed spec fn consumer_slots(&self) -> Seq<usize> {
        self.output_index@
    }

    pub closed spec fn activation(&self) -> ActivationFunctionEnum {
        self.activation_fn_enum
    }

    /// The two mirror lists stay aligned, and every slot has a `usize` index.
    pub open spec fn wf(&self) -> bool {
        &&& self.consumers().len() == self.consumer_slots().len()
        &&& self.inputs().len() <= usize::MAX
    }

    /// A node with no edges and the identity activation.
    pub fn new(id: usize) -> (r: Self)
        ensures
            r.wf(),
            r.spec_id() == id,
            r.inputs() == Seq::<usize>::empty(),
            r.consumers() == Seq::<usize>::empty(),
            r.activation() == ActivationFunctionEnum::DoNothing,
    {
        Node {
            id,
            input_id: Vec::new(),
            output_id: Vec::new(),
            output_index: Vec::new(),
            activation_fn_enum: ActivationFunctionEnum::DoNothing,
        }
    }

    /// Adds an input slot fed by node `id` and returns the new slot's index.
    pub fn new_input_source(&mut self, id: usize) -> (r: usize)
        ensures
            r == old(self).inputs().len(),
            final(self).inputs() == old(self).inputs().push(id),
            final(self).spec_id() == old(self).spec_id(),
            final(self).consumers() == old(self).consumers(),
            final(self).consumer_slots() == old(self).consumer_slots(),
            final(self).activation() == old(self).activation(),
            final(self).wf() == old(self).wf(),
    {
        self.input_id.push(id);
        self.input_id.len() - 1
    }

    /// Records that this node feeds slot `index` of node `id`.
    pub fn new_output_target(&mut self, id: usize, index: usize)
        ensures
            final(self).consumers() == old(self).consumers().push(id),
            final(self).consumer_slots() == old(self).consumer_slots().push(index),
            final(self).spec_id() == old(self).spec_id(),
            final(self).inputs() == old(self).inputs(),
            final(self).activation() == old(self).activation(),
            final(self).wf() == old(self).wf(),
    {
        self.output_id.push(id);
        self.output_index.push(index);
    }

    pub fn set_activation(&mut self, activation_fn_enum: ActivationFunctionEnum)
        ensures
            final(self).activation() == activation_fn_enum,
            final(self).spec_id() == old(self).spec_id(),
            final(self).inputs() == old(self).inputs(),
            final(self).consumers() == old(self).consumers(),
            final(self).consumer_slots() == old(self).consumer_slots(),
            final(self).wf() == old(self).wf(),
    {
        self.activation_fn_enum = activation_fn_enum;
    }

    pub fn get_id(&self) -> (r: usize)
        ensures
            r == self.spec_id(),
    {
        self.id
    }

    pub fn get_activation(&self) -> (r: ActivationFunctionEnum)
        ensures
            r == self.activation(),
    {
        self.activation_fn_enum
    }

    /// The ids feeding the input slots, in slot order.
    pub fn input_ids(&self) -> (r: &Vec<usize>)
        ensures
            r@ == self.inputs(),
    {
        &self.input_id
    }

    pub fn input_count(&self) -> (r: usize)
        ensures
            r == self.inputs().len(),
    {
        self.input_id.len()
    }

    pub fn output_count(&self) -> (r: usize)
        ensures
            r == self.consumers().len(),
    {
        self.output_id.len()
    }

    /// The requests this node makes for the values of its inputs.
    pub fn fetch_value(&self) -> (r: Vec<NodeFetchQueueItem>)
        ensures
            r@ == value_requests(self.spec_id(), self.inputs()),
    {
        let mut r: Vec<NodeFetchQueueItem> = Vec::new();
        let mut k: usize = 0;
        while k < self.input_id.len()
            invariant
                k <= self.input_id@.len(),
                r@ == value_requests(self.id, self.input_id@.subrange(0, k as int)),
            decreases self.input_id@.len() - k,
        {
            r.push(NodeFetchQueueItem { from_id: self.input_id[k], to_id: self.id, to_index: k });
            k = k + 1;
            assert(r@ =~= value_requests(self.id, self.input_id@.subrange(0, k as int)));
        }
        assert(self.input_id@.subrange(0, k as int) =~= self.input_id@);
        r
    }

    /// The requests this node makes for the partials its consumers hold for it.
    pub fn fetch_partial(&self) -> (r: Vec<NodeFetchQueueItem>)
        requires
            self.wf(),
        ensures
            r@ == partial_requests(self.spec_id(), self.consumers(), self.consumer_slots()),
    {
        let mut r: Vec<NodeFetchQueueItem> = Vec::new();
        let mut k: usize = 0;
        while k < self.output_id.len()
            invariant
                k <= self.output_id@.len(),
                self.output_id@.len() == self.output_index@.len(),
                r@ == partial_requests(
                    self.id,
                    self.output_id@.subrange(0, k as int),
                    self.output_index@.subrange(0, k as int),
                ),
            decreases self.output_id@.len() - k,
        {
            r.push(
                NodeFetchQueueItem {
                    from_id: self.output_id[k],
                    to_id: self.id,
                    to_index: self.output_index[k],
                },
            );
            k = k + 1;
            assert(r@ =~= partial_requests(
                self.id,
                self.output_id@.subrange(0, k as int),
                self.output_index@.subrange(0, k as int),
            ));
        }
        assert(self.output_id@.subrange(0, k as int) =~= self.output_id@);
        assert(self.output_index@.subrange(0, k as int) =~= self.output_index@);
        r
    }
}

} // verus!
