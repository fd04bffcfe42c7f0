//! The aggregate interface of a schedule: every tensor that its operations
//! touch, and how.
use vstd::prelude::*;

use crate::ir::{
    flat, placed_models, tensor_models, KindModel, MemSpace, Node, NodeKind, NodeModel, Placed,
    Schedule, ScheduleModel, Tensor, TensorModel,
};
use crate::text::{insert_sorted, same_text, strictly_sorted, texts};

verus! {

/// How a tensor is touched, and where it was found last.
#[derive(Debug, Clone, Copy, PartialEq, Eq, Structural)]
pub struct TensorAccess {
    pub read: bool,
    pub written: bool,
    pub space: Option<MemSpace>,
}

impl Default for TensorAccess {
    fn default() -> (res: Self)
        ensures
            res == (TensorAccess { read: false, written: false, space: None }),
    {
        TensorAccess { read: false, written: false, space: None }
    }
}

/// One operation touching one tensor.
#[verifier::ext_equal]
pub struct Access {
    pub tensor: TensorModel,
    pub write: bool,
}

/// The same kind of access to each of the tensors, in order.
pub open spec fn accesses_to(tensors: Seq<TensorModel>, write: bool) -> Seq<Access> {
    tensors.map_values(|t: TensorModel| Access { tensor: t, write })
}

/// What one node does itself: an operation reads its inputs, then writes its outputs.
pub open spec fn node_accesses(node: NodeModel) -> Seq<Access> {
    match node.kind {
        KindModel::Op(_) => accesses_to(node.inputs, false) + accesses_to(node.outputs, true),
        KindModel::SubSchedule(_) => Seq::empty(),
    }
}

/// What the nodes of a listing do, in order.
pub open spec fn accesses(entries: Seq<Placed>) -> Seq<Access>
    decreases entries.len(),
{
    if entries.len() == 0 {
        Seq::empty()
    } else {
        accesses(entries.drop_last()) + node_accesses(entries.last().1)
    }
}

/// What an operation of a listing touches is among what the listing touches.
pub proof fn lemma_access_listed(entries: Seq<Placed>, i: int, a: Access)
    requires
        0 <= i < entries.len(),
        node_accesses(entries[i].1).contains(a),
    ensures
        accesses(entries).contains(a),
    decreases entries.len(),
{
    let front = entries.drop_last();
    if i < front.len() {
        assert(front[i] == entries[i]);
        lemma_access_listed(front, i, a);
        let k = choose|k: int| 0 <= k < accesses(front).len() && accesses(front)[k] == a;
        assert(accesses(entries)[k] == a);
    } else {
        let log = node_accesses(entries[i].1);
        let k = choose|k: int| 0 <= k < log.len() && log[k] == a;
        assert(accesses(entries)[accesses(front).len() + k] == a);
    }
}

/// What a listing touches, one of its nodes touches.
pub proof fn lemma_access_from(entries: Seq<Placed>, a: Access) -> (i: int)
    requires
        accesses(entries).contains(a),
    ensures
        0 <= i < entries.len(),
        node_accesses(entries[i].1).contains(a),
    decreases entries.len(),
{
    let front = entries.drop_last();
    let k = choose|k: int| 0 <= k < accesses(entries).len() && accesses(entries)[k] == a;
    if k < accesses(front).len() {
        assert(accesses(front)[k] == a);
        lemma_access_from(front, a)
    } else {
        let log = node_accesses(entries.last().1);
        assert(log[k - accesses(front).len()] == a);
        entries.len() - 1
    }
}

/// Some access of this kind is to a tensor of this name.
pub open spec fn accessed(log: Seq<Access>, name: Seq<char>, write: bool) -> bool {
    exists|i: int|
        0 <= i < log.len() && #[trigger] log[i].tensor.name == name && log[i].write == write
}

/// The memory space of the last tensor of this name.
pub open spec fn last_space(log: Seq<Access>, name: Seq<char>) -> Option<MemSpace>
    decreases log.len(),
{
    if log.len() == 0 {
        None
    } else if log.last().tensor.name == name {
        Some(log.last().tensor.space)
    } else {
        last_space(log.drop_last(), name)
    }
}

/// All accesses to tensors of one name, taken together.
pub open spec fn access_of(log: Seq<Access>, name: Seq<char>) -> TensorAccess {
    TensorAccess {
        read: accessed(log, name, false),
        written: accessed(log, name, true),
        space: last_space(log, name),
    }
}

/// All accesses, by tensor name.
pub open spec fn interface_of(log: Seq<Access>) -> Map<Seq<char>, TensorAccess> {
    Map::new(
        |name: Seq<char>| accessed(log, name, false) || accessed(log, name, true),
        |name: Seq<char>| access_of(log, name),
    )
}

/// The aggregate interface of a schedule.
pub open spec fn schedule_interface(s: ScheduleModel) -> Map<Seq<char>, TensorAccess> {
    interface_of(accesses(flat(s)))
}

/// An interface after one more access.
pub open spec fn with_access(map: Map<Seq<char>, TensorAccess>, a: Access) -> Map<
    Seq<char>,
    TensorAccess,
> {
    let known = map.dom().contains(a.tensor.name);
    map.insert(
        a.tensor.name,
        TensorAccess {
            read: (known && map[a.tensor.name].read) || !a.write,
            written: (known && map[a.tensor.name].written) || a.write,
            space: Some(a.tensor.space),
        },
    )
}

/// An interface after more accesses, one after the other.
pub open spec fn with_accesses(map: Map<Seq<char>, TensorAccess>, log: Seq<Access>) -> Map<
    Seq<char>,
    TensorAccess,
>
    decreases log.len(),
{
    if log.len() == 0 {
        map
    } else {
        with_access(with_accesses(map, log.drop_last()), log.last())
    }
}

proof fn lemma_one_more(log: Seq<Access>, a: Access)
    ensures
        interface_of(log.push(a)) == with_access(interface_of(log), a),
{
    let more = log.push(a);
    assert(more.drop_last() =~= log);
    assert(more[log.len() as int] == a);
    assert forall|name: Seq<char>, write: bool| #[trigger]
        accessed(more, name, write) <==> accessed(log, name, write) || (a.tensor.name == name
            && a.write == write) by {
        if accessed(log, name, write) {
            let i = choose|i: int|
                0 <= i < log.len() && #[trigger] log[i].tensor.name == name && log[i].write
                    == write;
            assert(more[i].tensor.name == name);
        }
        if accessed(more, name, write) {
            let i = choose|i: int|
                0 <= i < more.len() && #[trigger] more[i].tensor.name == name && more[i].write
                    == write;
            if i < log.len() {
                assert(log[i].tensor.name == name);
            }
        }
        if a.tensor.name == name && a.write == write {
            assert(more[log.len() as int].tensor.name == name);
        }
    }
    assert(interface_of(more) =~= with_access(interface_of(log), a));
}

/// Entering accesses one after the other gives, for each tensor, all
/// accesses to it taken together.
pub proof fn lemma_interface_by_accesses(log: Seq<Access>)
    ensures
        with_accesses(Map::empty(), log) == interface_of(log),
    decreases log.len(),
{
    if log.len() == 0 {
        assert(with_accesses(Map::empty(), log) =~= interface_of(log));
    } else {
        lemma_interface_by_accesses(log.drop_last());
        lemma_one_more(log.drop_last(), log.last());
        assert(log.drop_last().push(log.last()) =~= log);
    }
}

proof fn lemma_accesses_in_two(map: Map<Seq<char>, TensorAccess>, a: Seq<Access>, b: Seq<Access>)
    ensures
        with_accesses(map, a + b) == with_accesses(with_accesses(map, a), b),
    decreases b.len(),
{
    if b.len() == 0 {
        assert(a + b =~= a);
    } else {
        lemma_accesses_in_two(map, a, b.drop_last());
        assert((a + b).drop_last() =~= a + b.drop_last());
        assert((a + b).last() == b.last());
    }
}

/// Tensor accesses by tensor name. Each name occurs once.
#[derive(Debug)]
pub struct Interface {
    entries: Vec<(String, TensorAccess)>,
}

impl View for Interface {
    type V = Map<Seq<char>, TensorAccess>;

    closed spec fn view(&self) -> Map<Seq<char>, TensorAccess> {
        Map::new(
            |name: Seq<char>| exists|i: int| self.holds(i, name),
            |name: Seq<char>| self.entries@[choose|i: int| self.holds(i, name)].1,
        )
    }
}

impl Interface {
    spec fn holds(self, i: int, name: Seq<char>) -> bool {
        0 <= i < self.entries@.len() && self.entries@[i].0@ == name
    }

    #[verifier::type_invariant]
    spec fn each_name_once(self) -> bool {
        forall|i: int, j: int|
            0 <= i < j < self.entries@.len() ==> #[trigger] self.entries@[i].0@
                != #[trigger] self.entries@[j].0@
    }

    /// An interface that names no tensor.
    pub fn new() -> (res: Self)
        ensures
            res@ == Map::<Seq<char>, TensorAccess>::empty(),
    {
        let res = Interface { entries: Vec::new() };
        assert(res@ =~= Map::<Seq<char>, TensorAccess>::empty());
        res
    }

    /// Where the entry of a name stands.
    fn position(&self, name: &str) -> (res: Option<usize>)
        ensures
            match res {
                Some(i) => self.holds(i as int, name@),
                None => !self@.dom().contains(name@),
            },
    {
        for i in 0..self.entries.len()
            invariant
                forall|j: int| 0 <= j < i ==> !#[trigger] self.holds(j, name@),
        {
            if same_text(self.entries[i].0.as_str(), name) {
                return Some(i);
            }
            assert(!self.holds(i as int, name@));
        }
        None
    }

    proof fn lemma_entry(self, i: int)
        requires
            self.each_name_once(),
            0 <= i < self.entries@.len(),
        ensures
            self@.dom().contains(self.entries@[i].0@),
            self@[self.entries@[i].0@] == self.entries@[i].1,
    {
        let name = self.entries@[i].0@;
        assert(self.holds(i, name));
    }

    /// Whether a tensor of this name is touched.
    pub fn contains_key(&self, name: &str) -> (res: bool)
        ensures
            res == self@.dom().contains(name@),
    {
        match self.position(name) {
            Some(_) => true,
            None => false,
        }
    }

    /// How the tensor of this name is touched.
    pub fn get(&self, name: &str) -> (res: Option<TensorAccess>)
        ensures
            res == (if self@.dom().contains(name@) {
                Some(self@[name@])
            } else {
                None
            }),
    {
        proof {
            use_type_invariant(self);
        }
        match self.position(name) {
            Some(i) => {
                proof {
                    self.lemma_entry(i as int);
                }
                Some(self.entries[i].1)
            },
            None => None,
        }
    }

    /// The names of the tensors that are touched, in order.
    pub fn names(&self) -> (res: Vec<String>)
        ensures
            strictly_sorted(texts(res@)),
            texts(res@).to_set() == self@.dom(),
    {
        proof {
            use_type_invariant(self);
        }
        let mut res: Vec<String> = Vec::new();
        for i in 0..self.entries.len()
            invariant
                strictly_sorted(texts(res@)),
                forall|name: Seq<char>|
                    texts(res@).to_set().contains(name) <==> exists|j: int|
                        0 <= j < i && #[trigger] self.holds(j, name),
        {
            let ghost before = texts(res@).to_set();
            let ghost added = self.entries@[i as int].0@;
            insert_sorted(&mut res, self.entries[i].0.clone());
            proof {
                assert(self.holds(i as int, added));
                assert forall|name: Seq<char>|
                    texts(res@).to_set().contains(name) <==> exists|j: int|
                        0 <= j < i + 1 && #[trigger] self.holds(j, name) by {
                    if texts(res@).to_set().contains(name) {
                        if name != added {
                            assert(before.contains(name));
                            let j = choose|j: int| 0 <= j < i && #[trigger] self.holds(j, name);
                            assert(0 <= j < i + 1 && self.holds(j, name));
                        }
                    }
                    if exists|j: int| 0 <= j < i + 1 && #[trigger] self.holds(j, name) {
                        let j = choose|j: int| 0 <= j < i + 1 && #[trigger] self.holds(j, name);
                        if j < i {
                            assert(before.contains(name));
                        }
                    }
                }
            }
        }
        assert(texts(res@).to_set() =~= self@.dom()) by {
            assert forall|name: Seq<char>| texts(res@).to_set().contains(name)
                <==> self@.dom().contains(name) by {
                if self@.dom().contains(name) {
                    let j = choose|j: int| self.holds(j, name);
                    assert(0 <= j < self.entries@.len() && self.holds(j, name));
                }
            }
        }
        res
    }

    /// Enters one access.
    pub fn record(&mut self, tensor: &Tensor, is_output: bool)
        ensures
            final(self)@ == with_access(old(self)@, Access { tensor: tensor@, write: is_output }),
    {
        proof {
            use_type_invariant(&*self);
        }
        let ghost before = *self;
        let found = self.position(tensor.name.as_str());
        let mut entries: Vec<(String, TensorAccess)> = Vec::new();
        std::mem::swap(&mut entries, &mut self.entries);
        let mut access: TensorAccess = TensorAccess::default();
        if let Some(i) = found {
            access = entries[i].1;
            proof {
                before.lemma_entry(i as int);
            }
        }
        if is_output {
            access.written = true;
        } else {
            access.read = true;
        }
        access.space = Some(tensor.space);
        match found {
            Some(i) => {
                let name: String = entries[i].0.clone();
                entries[i] = (name, access);
            },
            None => {
                assert forall|i: int| 0 <= i < entries@.len() implies #[trigger] entries@[i].0@
                    != tensor@.name by {
                    assert(!before.holds(i, tensor@.name));
                }
                entries.push((tensor.name.clone(), access));
            },
        }
        self.entries = entries;
        proof {
            let (old_map, new_map) = (before@, self@);
            let expected = old_map.insert(tensor@.name, access);
            assert forall|name: Seq<char>| new_map.dom().contains(name)
                <==> expected.dom().contains(name) by {
                if new_map.dom().contains(name) {
                    let i = choose|i: int| self.holds(i, name);
                    if name != tensor@.name {
                        assert(before.holds(i, name));
                    }
                }
                if old_map.dom().contains(name) {
                    let i = choose|i: int| before.holds(i, name);
                    assert(self.holds(i, name));
                }
                if name == tensor@.name {
                    match found {
                        Some(i) => assert(self.holds(i as int, name)),
                        None => assert(self.holds(self.entries@.len() - 1, name)),
                    }
                }
            }
            assert forall|name: Seq<char>| new_map.dom().contains(name) implies new_map[name]
                == expected[name] by {
                let i = choose|i: int| self.holds(i, name);
                self.lemma_entry(i);
                if name != tensor@.name {
                    assert(before.holds(i, name));
                    before.lemma_entry(i);
                }
            }
            assert(new_map =~= expected);
        }
    }
}

impl Clone for Interface {
    fn clone(&self) -> (res: Self)
        ensures
            res@ == self@,
    {
        proof {
            use_type_invariant(self);
        }
        let mut entries: Vec<(String, TensorAccess)> = Vec::new();
        for i in 0..self.entries.len()
            invariant
                entries@.len() == i,
                forall|j: int| 0 <= j < i ==> #[trigger] entries@[j] == self.entries@[j],
        {
            entries.push((self.entries[i].0.clone(), self.entries[i].1));
        }
        assert(entries@ =~= self.entries@);
        let res = Interface { entries };
        proof {
            assert forall|name: Seq<char>, i: int| res.holds(i, name) == self.holds(i, name) by {
            }
            assert forall|name: Seq<char>| res@.dom().contains(name)
                <==> self@.dom().contains(name) by {
                if res@.dom().contains(name) {
                    let i = choose|i: int| res.holds(i, name);
                    assert(self.holds(i, name));
                }
                if self@.dom().contains(name) {
                    let i = choose|i: int| self.holds(i, name);
                    assert(res.holds(i, name));
                }
            }
            assert forall|name: Seq<char>| res@.dom().contains(name) implies res@[name]
                == self@[name] by {
                let i = choose|i: int| res.holds(i, name);
                res.lemma_entry(i);
                self.lemma_entry(i);
            }
            assert(res@ =~= self@);
        }
        res
    }
}

/// Enters an access to each of the tensors, in order.
pub fn accumulate_tensors(map: &mut Interface, tensors: &Vec<Tensor>, is_output: bool)
    ensures
        final(map)@ == with_accesses(
            old(map)@,
            accesses_to(tensor_models(tensors@), is_output),
        ),
{
    let ghost before = map@;
    let ghost added = accesses_to(tensor_models(tensors@), is_output);
    for i in 0..tensors.len()
        invariant
            added == accesses_to(tensor_models(tensors@), is_output),
            map@ == with_accesses(before, added.take(i as int)),
    {
        map.record(&tensors[i], is_output);
        proof {
            let next = added.take(i + 1);
            assert(next.drop_last() =~= added.take(i as int));
            assert(next.last() == Access { tensor: tensors@[i as int]@, write: is_output });
        }
    }
    assert(added.take(added.len() as int) =~= added);
}

/// Enters what every operation of the schedule does, at any level.
pub fn aggregate(schedule: &Schedule) -> (res: Interface)
    ensures
        res@ == schedule_interface(schedule@),
{
    let entries = schedule.flatten();
    let ghost placed = placed_models(entries@);
    let ghost none = Map::<Seq<char>, TensorAccess>::empty();
    let mut res = Interface::new();
    for i in 0..entries.len()
        invariant
            placed == placed_models(entries@),
            none == Map::<Seq<char>, TensorAccess>::empty(),
            res@ == with_accesses(none, accesses(placed.take(i as int))),
    {
        let node: &Node = entries[i].1;
        let ghost done = accesses(placed.take(i as int));
        assert(placed[i as int].1 == node@);
        assert(placed.take(i + 1).drop_last() =~= placed.take(i as int));
        if let NodeKind::Op(_) = &node.kind {
            accumulate_tensors(&mut res, &node.inputs, false);
            accumulate_tensors(&mut res, &node.outputs, true);
            proof {
                let reads = accesses_to(node@.inputs, false);
                let writes = accesses_to(node@.outputs, true);
                lemma_accesses_in_two(none, done, reads);
                lemma_accesses_in_two(none, done + reads, writes);
                assert((done + reads) + writes =~= done + (reads + writes));
            }
        } else {
            assert(done + Seq::<Access>::empty() =~= done);
        }
    }
    proof {
        assert(placed.take(placed.len() as int) =~= placed);
        lemma_interface_by_accesses(accesses(placed));
    }
    res
}

} // verus!
