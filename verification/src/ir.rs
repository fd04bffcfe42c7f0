//! Recursive schedules.
//!
//! A [`Schedule`] is a list of [`Node`]s tied together by their `waits_on`
//! lists. A node is either a primitive operation or a whole schedule of its
//! own, so schedules nest to any depth.
//!
//! Contracts speak of the models of these types: the same shape with
//! mathematical sequences in place of vectors and strings.
use std::collections::{HashMap, HashSet};
use vstd::prelude::*;

verus! {

pub type NodeId = u32;

/// A compute unit (streaming multiprocessor) of whatever hardware is targeted.
pub type SmId = u32;

#[derive(Debug, Clone, Copy, PartialEq, Eq, Structural)]
pub enum MemSpace {
    Hbm,
    SharedL1,
    Register,
}

#[derive(Debug, Clone, Copy, PartialEq, Eq, Hash, Structural)]
pub enum DType {
    F32,
    F16,
    BF16,
    I8,
}

#[derive(Debug, PartialEq)]
pub struct Tensor {
    pub name: String,
    pub shape: Vec<u64>,
    pub dtype: DType,
    pub space: MemSpace,
}

/// Primitive operations. A backend maps each variant to a kernel call.
#[derive(Debug, PartialEq)]
pub enum OpKind {
    MatMul { m: u64, n: u64, k: u64 },
    RmsNorm { dim: u64 },
    Softmax { dim: u64 },
    Attention { heads: u64, head_dim: u64, seq_len: u64 },
    Elementwise { op: String },
    Barrier,
}

/// A single executable unit: a primitive operation or a nested schedule.
#[derive(Debug)]
pub struct Node {
    pub id: NodeId,
    pub kind: NodeKind,
    pub inputs: Vec<Tensor>,
    pub outputs: Vec<Tensor>,
    /// The compute unit this node is pinned to.
    pub sm: SmId,
    /// Ids of the nodes that must finish before this one starts.
    pub waits_on: Vec<NodeId>,
}

#[derive(Debug)]
pub enum NodeKind {
    Op(OpKind),
    /// This node is itself a complete schedule.
    SubSchedule(Box<Schedule>),
}

#[derive(Debug)]
pub struct Schedule {
    pub name: String,
    pub nodes: Vec<Node>,
}

/// What a [`Tensor`] is.
#[verifier::ext_equal]
pub struct TensorModel {
    pub name: Seq<char>,
    pub shape: Seq<u64>,
    pub dtype: DType,
    pub space: MemSpace,
}

/// What an [`OpKind`] is.
#[verifier::ext_equal]
pub enum OpModel {
    MatMul { m: u64, n: u64, k: u64 },
    RmsNorm { dim: u64 },
    Softmax { dim: u64 },
    Attention { heads: u64, head_dim: u64, seq_len: u64 },
    Elementwise { op: Seq<char> },
    Barrier,
}

/// What a [`Node`] is.
#[verifier::ext_equal]
pub struct NodeModel {
    pub id: NodeId,
    pub kind: KindModel,
    pub inputs: Seq<TensorModel>,
    pub outputs: Seq<TensorModel>,
    pub sm: SmId,
    pub waits_on: Seq<NodeId>,
}

/// What a [`NodeKind`] is.
#[verifier::ext_equal]
pub enum KindModel {
    Op(OpModel),
    SubSchedule(Box<ScheduleModel>),
}

/// What a [`Schedule`] is.
#[verifier::ext_equal]
pub struct ScheduleModel {
    pub name: Seq<char>,
    pub nodes: Seq<NodeModel>,
}

impl View for Tensor {
    type V = TensorModel;

    open spec fn view(&self) -> TensorModel {
        TensorModel {
            name: self.name@,
            shape: self.shape@,
            dtype: self.dtype,
            space: self.space,
        }
    }
}

/// The models of a sequence of tensors.
pub open spec fn tensor_models(tensors: Seq<Tensor>) -> Seq<TensorModel> {
    tensors.map_values(|t: Tensor| t@)
}

impl View for OpKind {
    type V = OpModel;

    open spec fn view(&self) -> OpModel {
        match self {
            OpKind::MatMul { m, n, k } => OpModel::MatMul { m: *m, n: *n, k: *k },
            OpKind::RmsNorm { dim } => OpModel::RmsNorm { dim: *dim },
            OpKind::Softmax { dim } => OpModel::Softmax { dim: *dim },
            OpKind::Attention { heads, head_dim, seq_len } => OpModel::Attention {
                heads: *heads,
                head_dim: *head_dim,
                seq_len: *seq_len,
            },
            OpKind::Elementwise { op } => OpModel::Elementwise { op: op@ },
            OpKind::Barrier => OpModel::Barrier,
        }
    }
}

impl Schedule {
    /// The schedule with its strings and vectors read as sequences, at every level.
    pub open spec fn model(self) -> ScheduleModel
        decreases self,
    {
        ScheduleModel {
            name: self.name@,
            nodes: Seq::new(
                self.nodes@.len(),
                |i: int|
                    if 0 <= i < self.nodes@.len() {
                        self.nodes@[i].model()
                    } else {
                        arbitrary()
                    },
            ),
        }
    }
}

impl Node {
    /// The node with its strings and vectors read as sequences, at every level.
    pub open spec fn model(self) -> NodeModel
        decreases self,
    {
        NodeModel {
            id: self.id,
            kind: self.kind.model(),
            inputs: tensor_models(self.inputs@),
            outputs: tensor_models(self.outputs@),
            sm: self.sm,
            waits_on: self.waits_on@,
        }
    }
}

impl NodeKind {
    /// The kind with its strings and vectors read as sequences, at every level.
    pub open spec fn model(self) -> KindModel
        decreases self,
    {
        match self {
            NodeKind::Op(op) => KindModel::Op(op@),
            NodeKind::SubSchedule(sub) => KindModel::SubSchedule(Box::new(sub.model())),
        }
    }
}

impl View for Schedule {
    type V = ScheduleModel;

    open spec fn view(&self) -> ScheduleModel {
        self.model()
    }
}

impl View for Node {
    type V = NodeModel;

    open spec fn view(&self) -> NodeModel {
        self.model()
    }
}

impl View for NodeKind {
    type V = KindModel;

    open spec fn view(&self) -> KindModel {
        self.model()
    }
}

impl Clone for Tensor {
    fn clone(&self) -> (res: Self)
        ensures
            res@ == self@,
    {
        Tensor {
            name: self.name.clone(),
            shape: self.shape.clone(),
            dtype: self.dtype,
            space: self.space,
        }
    }
}

impl Clone for OpKind {
    fn clone(&self) -> (res: Self)
        ensures
            res@ == self@,
    {
        match self {
            OpKind::MatMul { m, n, k } => OpKind::MatMul { m: *m, n: *n, k: *k },
            OpKind::RmsNorm { dim } => OpKind::RmsNorm { dim: *dim },
            OpKind::Softmax { dim } => OpKind::Softmax { dim: *dim },
            OpKind::Attention { heads, head_dim, seq_len } => OpKind::Attention {
                heads: *heads,
                head_dim: *head_dim,
                seq_len: *seq_len,
            },
            OpKind::Elementwise { op } => OpKind::Elementwise { op: op.clone() },
            OpKind::Barrier => OpKind::Barrier,
        }
    }
}

fn clone_tensors(tensors: &Vec<Tensor>) -> (res: Vec<Tensor>)
    ensures
        tensor_models(res@) == tensor_models(tensors@),
{
    let mut res: Vec<Tensor> = Vec::new();
    for i in 0..tensors.len()
        invariant
            res@.len() == i,
            forall|j: int| 0 <= j < i ==> #[trigger] res@[j]@ == tensors@[j]@,
    {
        res.push(tensors[i].clone());
    }
    assert(tensor_models(res@) =~= tensor_models(tensors@));
    res
}

impl Clone for NodeKind {
    fn clone(&self) -> (res: Self)
        ensures
            res@ == self@,
        decreases self,
    {
        match self {
            NodeKind::Op(op) => NodeKind::Op(op.clone()),
            NodeKind::SubSchedule(sub) => NodeKind::SubSchedule(Box::new((&**sub).clone())),
        }
    }
}

impl Clone for Node {
    fn clone(&self) -> (res: Self)
        ensures
            res@ == self@,
        decreases self,
    {
        Node {
            id: self.id,
            kind: self.kind.clone(),
            inputs: clone_tensors(&self.inputs),
            outputs: clone_tensors(&self.outputs),
            sm: self.sm,
            waits_on: self.waits_on.clone(),
        }
    }
}

impl Clone for Schedule {
    fn clone(&self) -> (res: Self)
        ensures
            res@ == self@,
        decreases self,
    {
        let mut nodes: Vec<Node> = Vec::new();
        for i in 0..self.nodes.len()
            invariant
                nodes@.len() == i,
                forall|j: int| 0 <= j < i ==> #[trigger] nodes@[j]@ == self.nodes@[j]@,
        {
            nodes.push(self.nodes[i].clone());
        }
        let res = Schedule { name: self.name.clone(), nodes };
        assert forall|i: int| 0 <= i < res@.nodes.len() implies res@.nodes[i] == self@.nodes[i] by {
            assert(res.nodes@[i]@ == self.nodes@[i]@);
        }
        assert(res@.nodes =~= self@.nodes);
        res
    }
}

/// A node as [`Schedule::flatten`] lists it: the ids of the nodes that hold
/// it, outermost first, and the node.
pub type Placed = (Seq<NodeId>, NodeModel);

/// The listing of one node at `path`: the node, then all that it holds.
pub open spec fn flat_node(node: NodeModel, path: Seq<NodeId>) -> Seq<Placed>
    decreases node,
{
    match node.kind {
        KindModel::Op(_) => seq![(path, node)],
        KindModel::SubSchedule(sub) => seq![(path, node)] + flat_nodes(
            sub.nodes,
            path.push(node.id),
        ),
    }
}

/// The listings of the nodes at `path`, one after the other.
pub open spec fn flat_nodes(nodes: Seq<NodeModel>, path: Seq<NodeId>) -> Seq<Placed>
    decreases nodes,
{
    if nodes.len() == 0 {
        Seq::empty()
    } else {
        flat_nodes(nodes.drop_last(), path) + flat_node(nodes[nodes.len() - 1], path)
    }
}

/// Every node of the schedule at every level, with its place.
pub open spec fn flat(s: ScheduleModel) -> Seq<Placed> {
    flat_nodes(s.nodes, Seq::empty())
}

/// What a vector of placed nodes lists.
pub open spec fn placed_models(entries: Seq<(Vec<NodeId>, &Node)>) -> Seq<Placed> {
    entries.map_values(|e: (Vec<NodeId>, &Node)| (e.0@, e.1@))
}

/// A node of this level has this id.
pub open spec fn has_id(nodes: Seq<NodeModel>, id: NodeId) -> bool {
    exists|i: int| 0 <= i < nodes.len() && #[trigger] nodes[i].id == id
}

/// The nodes of one level by id. Where an id occurs twice, the later node counts.
pub open spec fn index_model(nodes: Seq<NodeModel>) -> Map<NodeId, NodeModel>
    decreases nodes.len(),
{
    if nodes.len() == 0 {
        Map::empty()
    } else {
        index_model(nodes.drop_last()).insert(nodes.last().id, nodes.last())
    }
}

/// The index holds the ids that occur, each with the last node that has it.
pub proof fn lemma_index_model(nodes: Seq<NodeModel>)
    ensures
        index_model(nodes).dom().finite(),
        forall|id: NodeId| #[trigger]
            index_model(nodes).dom().contains(id) <==> has_id(nodes, id),
        forall|id: NodeId, i: int|
            0 <= i < nodes.len() && nodes[i].id == id && !has_id(nodes.skip(i + 1), id)
                ==> #[trigger] index_model(nodes)[id] == #[trigger] nodes[i],
    decreases nodes.len(),
{
    if nodes.len() > 0 {
        let front = nodes.drop_last();
        lemma_index_model(front);
        assert forall|id: NodeId| #[trigger]
            index_model(nodes).dom().contains(id) <==> has_id(nodes, id) by {
            if has_id(front, id) {
                let i = choose|i: int| 0 <= i < front.len() && #[trigger] front[i].id == id;
                assert(nodes[i].id == id);
            }
            if has_id(nodes, id) && id != nodes.last().id {
                let i = choose|i: int| 0 <= i < nodes.len() && #[trigger] nodes[i].id == id;
                assert(front[i].id == id);
            }
            if id == nodes.last().id {
                assert(nodes[nodes.len() - 1].id == id);
            }
        }
        assert forall|id: NodeId, i: int|
            0 <= i < nodes.len() && nodes[i].id == id && !has_id(
                nodes.skip(i + 1),
                id,
            ) implies #[trigger] index_model(nodes)[id] == #[trigger] nodes[i] by {
            if i < front.len() {
                let later = nodes.skip(i + 1);
                assert(later[later.len() - 1] == nodes.last());
                assert(nodes.last().id != id);
                assert(!has_id(front.skip(i + 1), id)) by {
                    if has_id(front.skip(i + 1), id) {
                        let j = choose|j: int|
                            0 <= j < front.skip(i + 1).len() && #[trigger] front.skip(i + 1)[j].id
                                == id;
                        assert(later[j].id == id);
                    }
                }
                assert(index_model(front)[id] == front[i]);
            }
        }
    }
}

/// The place of the node that the index holds under an id.
pub proof fn lemma_indexed_at(nodes: Seq<NodeModel>, id: NodeId) -> (i: int)
    requires
        has_id(nodes, id),
    ensures
        0 <= i < nodes.len(),
        nodes[i].id == id,
        !has_id(nodes.skip(i + 1), id),
        index_model(nodes)[id] == nodes[i],
    decreases nodes.len(),
{
    let n = nodes.len() as int;
    let front = nodes.drop_last();
    if nodes.last().id == id {
        n - 1
    } else {
        let j = choose|j: int| 0 <= j < nodes.len() && #[trigger] nodes[j].id == id;
        assert(front[j].id == id);
        let i = lemma_indexed_at(front, id);
        if has_id(nodes.skip(i + 1), id) {
            let later = nodes.skip(i + 1);
            let k = choose|k: int| 0 <= k < later.len() && #[trigger] later[k].id == id;
            assert(front.skip(i + 1)[k].id == id);
        }
        i
    }
}

/// `index` holds, by id, references to nodes with these models.
pub open spec fn indexes(index: Map<NodeId, &Node>, models: Map<NodeId, NodeModel>) -> bool {
    &&& index.dom() == models.dom()
    &&& forall|id: NodeId| #[trigger] index.dom().contains(id) ==> index[id]@ == models[id]
}

/// The compute units that the listed nodes are pinned to.
pub open spec fn sms_of(entries: Seq<Placed>) -> Set<SmId> {
    Set::new(|sm: SmId| exists|i: int| 0 <= i < entries.len() && #[trigger] entries[i].1.sm == sm)
}

/// `String::from` on a string slice: the same characters, owned.
pub assume_specification<'b>[ <String as From<&'b str>>::from ](text: &str) -> (res: String)
    ensures
        res@ == text@,
;

impl Schedule {
    /// An empty schedule whose name is what `name` converts to.
    pub fn new<T: Into<String>>(name: T) -> (res: Self)
        ensures
            exists|text: String| #[trigger]
                call_ensures(T::into, (name,), text) && res@ == (ScheduleModel {
                    name: text@,
                    nodes: Seq::empty(),
                }),
    {
        let text: String = name.into();
        let res = Schedule { name: text, nodes: Vec::new() };
        assert(res@.nodes =~= Seq::<NodeModel>::empty());
        res
    }

    /// Appends a node.
    pub fn push(&mut self, node: Node)
        ensures
            final(self)@ == (ScheduleModel {
                name: old(self)@.name,
                nodes: old(self)@.nodes.push(node@),
            }),
    {
        let ghost before = self@.nodes;
        self.nodes.push(node);
        assert(self@.nodes =~= before.push(node@));
    }

    /// Lists this schedule's nodes and, after each one, those nested in it.
    /// Each node comes with the chain of ids of the nodes that hold it.
    pub fn flatten(&self) -> (res: Vec<(Vec<NodeId>, &Node)>)
        ensures
            placed_models(res@) == flat(self@),
    {
        let mut out: Vec<(Vec<NodeId>, &Node)> = Vec::new();
        let mut path: Vec<NodeId> = Vec::new();
        self.flatten_into(&mut path, &mut out);
        assert(placed_models(out@) =~= flat(self@));
        out
    }

    fn flatten_into<'a>(&'a self, path: &mut Vec<NodeId>, out: &mut Vec<(Vec<NodeId>, &'a Node)>)
        ensures
            final(path)@ == old(path)@,
            placed_models(final(out)@) == placed_models(old(out)@) + flat_nodes(
                self@.nodes,
                old(path)@,
            ),
        decreases self,
    {
        let ghost nodes = self@.nodes;
        let ghost before = placed_models(out@);
        let ghost at = path@;
        assert(nodes.take(0) =~= Seq::empty());
        assert(before =~= before + flat_nodes(nodes.take(0), at));
        for i in 0..self.nodes.len()
            invariant
                nodes == self@.nodes,
                path@ == at,
                placed_models(out@) == before + flat_nodes(nodes.take(i as int), at),
        {
            let node: &'a Node = &self.nodes[i];
            let ghost so_far = placed_models(out@);
            assert(nodes[i as int] == node@);
            out.push((path.clone(), node));
            assert(placed_models(out@) =~= so_far.push((at, node@)));
            if let NodeKind::SubSchedule(sub) = &node.kind {
                path.push(node.id);
                sub.flatten_into(path, out);
                path.pop();
                assert(path@ =~= at);
            }
            proof {
                let next = nodes.take(i + 1);
                assert(next.drop_last() =~= nodes.take(i as int));
                assert(placed_models(out@) =~= so_far + flat_node(node@, at));
                assert(placed_models(out@) =~= before + flat_nodes(next, at));
            }
        }
        assert(nodes.take(nodes.len() as int) =~= nodes);
    }

    /// The nodes of this level by id.
    pub fn index(&self) -> (res: HashMap<NodeId, &Node>)
        ensures
            indexes(res@, index_model(self@.nodes)),
    {
        broadcast use vstd::std_specs::hash::group_hash_axioms;

        let mut res: HashMap<NodeId, &Node> = HashMap::new();
        let ghost nodes = self@.nodes;
        assert(indexes(res@, index_model(nodes.take(0))));
        for i in 0..self.nodes.len()
            invariant
                nodes == self@.nodes,
                indexes(res@, index_model(nodes.take(i as int))),
        {
            let node: &Node = &self.nodes[i];
            assert(nodes[i as int] == node@);
            res.insert(node.id, node);
            proof {
                let next = nodes.take(i + 1);
                assert(next.drop_last() =~= nodes.take(i as int));
                assert(res@.dom() =~= index_model(next).dom());
            }
        }
        assert(nodes.take(nodes.len() as int) =~= nodes);
        res
    }

    /// All compute units that the schedule names, at any level.
    pub fn all_sms(&self) -> (res: HashSet<SmId>)
        ensures
            res@ == sms_of(flat(self@)),
    {
        broadcast use vstd::std_specs::hash::group_hash_axioms;

        let entries = self.flatten();
        let ghost placed = placed_models(entries@);
        let mut res: HashSet<SmId> = HashSet::new();
        assert(res@ =~= sms_of(placed.take(0)));
        for i in 0..entries.len()
            invariant
                placed == placed_models(entries@),
                res@ == sms_of(placed.take(i as int)),
        {
            let sm: SmId = entries[i].1.sm;
            res.insert(sm);
            proof {
                let prev = placed.take(i as int);
                let next = placed.take(i + 1);
                assert(next[i as int].1.sm == sm);
                assert forall|x: SmId| sms_of(next).contains(x) <==> x == sm || sms_of(
                    prev,
                ).contains(x) by {
                    if sms_of(prev).contains(x) {
                        let j = choose|j: int| 0 <= j < prev.len() && #[trigger] prev[j].1.sm == x;
                        assert(next[j].1.sm == x);
                    }
                    if sms_of(next).contains(x) && x != sm {
                        let j = choose|j: int| 0 <= j < next.len() && #[trigger] next[j].1.sm == x;
                        assert(prev[j].1.sm == x);
                    }
                }
                assert(res@ =~= sms_of(next));
            }
        }
        assert(placed.take(placed.len() as int) =~= placed);
        res
    }
}

} // verus!
