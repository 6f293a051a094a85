//! The variable store behind a running journey. Values live in nodes; a node
//! is a final value, an object (keys to nodes) or a list (of nodes). Root
//! names refer to nodes, so a root bound to a list element aliases it: what
//! is written below the root shows up in the list. Variables that the store
//! cannot resolve are asked of a fallback provider and remembered.
use vstd::prelude::*;
use crate::keys::{
    find_key, first_index, keys_of, lookup, upsert, lemma_first_index, lemma_lookup_push,
    lemma_lookup_upsert,
};
use crate::path::{break_on, last_index_of, lemma_last_index_of, parent_path};
use crate::path::{is_below, starts_below};
use crate::value::{Value, ValueModel, VarType, Variable, entries_model, values_model};

verus! {

/// A node of the store.
#[derive(Debug)]
pub enum Object {
    Final(Value),
    Object(Vec<(String, usize)>),
    List(Vec<usize>),
}

/// Model of a node: child nodes by their index in the store.
pub enum NodeModel {
    Final(ValueModel),
    Object(Seq<(Seq<char>, nat)>),
    List(Seq<nat>),
}

impl View for Object {
    type V = NodeModel;

    open spec fn view(&self) -> NodeModel {
        match self {
            Object::Final(v) => NodeModel::Final(v@),
            Object::Object(entries) => NodeModel::Object(
                entries@.map_values(|e: (String, usize)| (e.0@, e.1 as nat)),
            ),
            Object::List(items) => NodeModel::List(items@.map_values(|i: usize| i as nat)),
        }
    }
}

impl Object {
    pub fn new_list_object() -> (r: Object)
        ensures
            r@ == NodeModel::List(Seq::empty()),
    {
        let r = Object::List(Vec::new());
        assert(r@ == NodeModel::List(Seq::empty())) by {
            assert(Seq::<usize>::empty().map_values(|i: usize| i as nat) =~= Seq::<nat>::empty());
        }
        r
    }

    pub fn new_object_object(entries: Vec<(String, usize)>) -> (r: Object)
        ensures
            r@ == NodeModel::Object(entries@.map_values(|e: (String, usize)| (e.0@, e.1 as nat))),
    {
        Object::Object(entries)
    }
}

pub open spec fn node_at(nodes: Seq<NodeModel>, id: nat) -> Option<NodeModel> {
    if id < nodes.len() {
        Some(nodes[id as int])
    } else {
        None
    }
}

/// The value a node stands for: a final node its value, a list the array of its
/// elements' values, an object the object of its entries' values. `fuel` bounds
/// the nesting of lists and objects; past it a container reads as null.
pub open spec fn object_value(nodes: Seq<NodeModel>, o: NodeModel, fuel: nat) -> ValueModel
    decreases fuel, 0nat,
{
    match o {
        NodeModel::Final(v) => v,
        NodeModel::List(items) => if fuel == 0 {
            ValueModel::Null
        } else {
            ValueModel::Array(items_value(nodes, items, (fuel - 1) as nat))
        },
        NodeModel::Object(entries) => if fuel == 0 {
            ValueModel::Null
        } else {
            ValueModel::Object(entries_value(nodes, entries, (fuel - 1) as nat))
        },
    }
}

/// The value of the node with index `id`; null when there is no such node.
pub open spec fn node_value(nodes: Seq<NodeModel>, id: nat, fuel: nat) -> ValueModel
    decreases fuel, 1nat,
{
    match node_at(nodes, id) {
        Some(o) => object_value(nodes, o, fuel),
        None => ValueModel::Null,
    }
}

pub open spec fn items_value(nodes: Seq<NodeModel>, items: Seq<nat>, fuel: nat) -> Seq<ValueModel>
    decreases fuel, items.len() + 2,
{
    if items.len() == 0 {
        Seq::empty()
    } else {
        items_value(nodes, items.drop_last(), fuel).push(node_value(nodes, items.last(), fuel))
    }
}

pub open spec fn entries_value(nodes: Seq<NodeModel>, entries: Seq<(Seq<char>, nat)>, fuel: nat) -> Seq<
    (Seq<char>, ValueModel),
>
    decreases fuel, entries.len() + 2,
{
    if entries.len() == 0 {
        Seq::empty()
    } else {
        entries_value(nodes, entries.drop_last(), fuel).push(
            (entries.last().0, node_value(nodes, entries.last().1, fuel)),
        )
    }
}

/// Every child of `o` that is a node of the store ranks below `r`.
pub open spec fn children_ranked(o: NodeModel, rank: Seq<nat>, r: nat) -> bool {
    match o {
        NodeModel::List(items) => forall|k: int|
            0 <= k < items.len() && items[k] < rank.len() ==> rank[#[trigger] items[k] as int] < r,
        NodeModel::Object(entries) => forall|k: int|
            0 <= k < entries.len() && entries[k].1 < rank.len() ==> rank[(#[trigger] entries[k]).1 as int]
                < r,
        NodeModel::Final(_) => true,
    }
}

/// `rank` shows that the nodes hold no cycle: each node has a rank below the
/// number of nodes, and every child ranks below its parent.
pub open spec fn ranked(nodes: Seq<NodeModel>, rank: Seq<nat>) -> bool {
    &&& rank.len() == nodes.len()
    &&& forall|n: int|
        0 <= n < nodes.len() ==> rank[n] < nodes.len() && children_ranked(
            #[trigger] nodes[n],
            rank,
            rank[n],
        )
}

proof fn lemma_node_fuel(nodes: Seq<NodeModel>, rank: Seq<nat>, id: nat, f1: nat, f2: nat)
    requires
        ranked(nodes, rank),
        id < nodes.len() ==> rank[id as int] < f1,
        f1 <= f2,
    ensures
        node_value(nodes, id, f1) == node_value(nodes, id, f2),
    decreases f1, 1nat,
{
    if id < nodes.len() {
        let o = nodes[id as int];
        assert(children_ranked(o, rank, rank[id as int]));
        match o {
            NodeModel::List(items) => {
                lemma_items_fuel(nodes, rank, items, (f1 - 1) as nat, (f2 - 1) as nat);
            },
            NodeModel::Object(entries) => {
                lemma_entries_fuel(nodes, rank, entries, (f1 - 1) as nat, (f2 - 1) as nat);
            },
            NodeModel::Final(_) => {},
        }
    }
}

proof fn lemma_items_fuel(nodes: Seq<NodeModel>, rank: Seq<nat>, items: Seq<nat>, g1: nat, g2: nat)
    requires
        ranked(nodes, rank),
        forall|k: int|
            0 <= k < items.len() && items[k] < rank.len() ==> rank[#[trigger] items[k] as int] < g1,
        g1 <= g2,
    ensures
        items_value(nodes, items, g1) == items_value(nodes, items, g2),
    decreases g1, items.len() + 2,
{
    if items.len() > 0 {
        let p = items.drop_last();
        assert forall|k: int| 0 <= k < p.len() && p[k] < rank.len() implies rank[#[trigger] p[k] as int]
            < g1 by {
            assert(p[k] == items[k]);
        }
        lemma_items_fuel(nodes, rank, p, g1, g2);
        assert(items.last() == items[items.len() - 1]);
        lemma_node_fuel(nodes, rank, items.last(), g1, g2);
    }
}

proof fn lemma_entries_fuel(
    nodes: Seq<NodeModel>,
    rank: Seq<nat>,
    entries: Seq<(Seq<char>, nat)>,
    g1: nat,
    g2: nat,
)
    requires
        ranked(nodes, rank),
        forall|k: int|
            0 <= k < entries.len() && entries[k].1 < rank.len() ==> rank[(#[trigger] entries[k]).1 as int]
                < g1,
        g1 <= g2,
    ensures
        entries_value(nodes, entries, g1) == entries_value(nodes, entries, g2),
    decreases g1, entries.len() + 2,
{
    if entries.len() > 0 {
        let p = entries.drop_last();
        assert forall|k: int| 0 <= k < p.len() && p[k].1 < rank.len() implies rank[(
        #[trigger] p[k]).1 as int] < g1 by {
            assert(p[k] == entries[k]);
        }
        lemma_entries_fuel(nodes, rank, p, g1, g2);
        assert(entries.last() == entries[entries.len() - 1]);
        lemma_node_fuel(nodes, rank, entries.last().1, g1, g2);
    }
}

/// In a store without cycles, the value read for a node is its whole value: the
/// same as its value read with any fuel at least the number of nodes, so no list
/// or object in it is cut short to null, however deep it lies.
pub proof fn lemma_target_value_whole(m: StoreModel, rank: Seq<nat>, id: nat, fuel: nat)
    requires
        ranked(m.nodes, rank),
        m.nodes.len() <= fuel,
    ensures
        m.target_value(TargetModel::Node(id)) == node_value(m.nodes, id, fuel),
{
    lemma_fuel_suffices(m.nodes, rank, id, fuel);
}

/// In a store without cycles, reading a node with the number of nodes as fuel,
/// as `StoreModel::target_value` does, gives the same value as reading it with any
/// more fuel: there the cut on nesting never turns a container into null.
pub proof fn lemma_fuel_suffices(nodes: Seq<NodeModel>, rank: Seq<nat>, id: nat, fuel: nat)
    requires
        ranked(nodes, rank),
        nodes.len() <= fuel,
    ensures
        node_value(nodes, id, fuel) == node_value(nodes, id, nodes.len()),
{
    lemma_node_fuel(nodes, rank, id, nodes.len(), fuel);
}

impl Object {
    /// The value this node stands for, its children taken from `nodes`, with
    /// containers nested deeper than `fuel` read as null.
    pub fn to_value(&self, nodes: &Vec<Object>, fuel: usize) -> (r: Value)
        ensures
            r@ == object_value(nodes@.map_values(|o: Object| o@), self@, fuel as nat),
        decreases fuel,
    {
        let ghost model = nodes@.map_values(|o: Object| o@);
        match self {
            Object::Final(v) => v.clone(),
            Object::List(items) => {
                if fuel == 0 {
                    return Value::Null;
                }
                let ghost ids = items@.map_values(|i: usize| i as nat);
                let mut vals: Vec<Value> = Vec::new();
                let mut k: usize = 0;
                while k < items.len()
                    invariant
                        k <= items.len(),
                        fuel > 0,
                        model == nodes@.map_values(|o: Object| o@),
                        ids == items@.map_values(|i: usize| i as nat),
                        vals.len() == k,
                        values_model(vals@) == items_value(model, ids.take(k as int), (fuel - 1) as nat),
                    decreases items.len() - k,
                {
                    let id = items[k];
                    let v = if id < nodes.len() {
                        nodes[id].to_value(nodes, fuel - 1)
                    } else {
                        Value::Null
                    };
                    assert(v@ == node_value(model, ids[k as int], (fuel - 1) as nat)) by {
                        if id < nodes.len() {
                            assert(model[id as int] == nodes@[id as int]@);
                        }
                    }
                    let ghost before = vals@;
                    vals.push(v);
                    assert(vals@.subrange(0, k as int) =~= before);
                    assert(ids.take(k + 1).drop_last() =~= ids.take(k as int));
                    k = k + 1;
                }
                assert(ids.take(items.len() as int) =~= ids);
                Value::Array(vals)
            },
            Object::Object(entries) => {
                if fuel == 0 {
                    return Value::Null;
                }
                let ghost es = entries@.map_values(|e: (String, usize)| (e.0@, e.1 as nat));
                let mut out: Vec<(String, Value)> = Vec::new();
                let mut k: usize = 0;
                while k < entries.len()
                    invariant
                        k <= entries.len(),
                        fuel > 0,
                        model == nodes@.map_values(|o: Object| o@),
                        es == entries@.map_values(|e: (String, usize)| (e.0@, e.1 as nat)),
                        out.len() == k,
                        entries_model(out@) == entries_value(model, es.take(k as int), (fuel - 1) as nat),
                    decreases entries.len() - k,
                {
                    let id = entries[k].1;
                    let v = if id < nodes.len() {
                        nodes[id].to_value(nodes, fuel - 1)
                    } else {
                        Value::Null
                    };
                    assert(v@ == node_value(model, es[k as int].1, (fuel - 1) as nat)) by {
                        if id < nodes.len() {
                            assert(model[id as int] == nodes@[id as int]@);
                        }
                    }
                    let key = entries[k].0.clone();
                    let ghost before = out@;
                    out.push((key, v));
                    assert(out@.subrange(0, k as int) =~= before);
                    assert(es.take(k + 1).drop_last() =~= es.take(k as int));
                    k = k + 1;
                }
                assert(es.take(entries.len() as int) =~= es);
                Value::Object(out)
            },
        }
    }
}

/// What a path names: a node, or the size of a list (`list.size`).
#[derive(Debug, Clone, Copy, PartialEq, Eq, Structural)]
pub enum Target {
    Node(usize),
    ListSize(usize),
}

pub enum TargetModel {
    Node(nat),
    ListSize(nat),
}

impl View for Target {
    type V = TargetModel;

    open spec fn view(&self) -> TargetModel {
        match self {
            Target::Node(id) => TargetModel::Node(*id as nat),
            Target::ListSize(n) => TargetModel::ListSize(*n as nat),
        }
    }
}

pub open spec fn target_view(t: Option<Target>) -> Option<TargetModel> {
    match t {
        Some(x) => Some(x@),
        None => None,
    }
}

pub open spec fn size_key() -> Seq<char> {
    seq!['s', 'i', 'z', 'e']
}

/// Model of the store: its nodes, the root names with their nodes, and the index
/// references (a name that iterates over the list at a path).
pub struct StoreModel {
    pub nodes: Seq<NodeModel>,
    pub refs: Seq<(Seq<char>, nat)>,
    pub indexes: Seq<(Seq<char>, Seq<char>)>,
}

impl StoreModel {
    pub open spec fn node(self, id: nat) -> Option<NodeModel> {
        if id < self.nodes.len() {
            Some(self.nodes[id as int])
        } else {
            None
        }
    }

    /// What `key` names inside the target `t`.
    pub open spec fn child(self, t: Option<TargetModel>, key: Seq<char>) -> Option<TargetModel> {
        match t {
            Some(TargetModel::Node(id)) => match self.node(id) {
                Some(NodeModel::Object(entries)) => match lookup(entries, key) {
                    Some(c) => Some(TargetModel::Node(c)),
                    None => None,
                },
                Some(NodeModel::List(items)) => if key == size_key() {
                    Some(TargetModel::ListSize(items.len()))
                } else {
                    None
                },
                _ => None,
            },
            _ => None,
        }
    }

    /// What a dotted path names: a root name looked up among the roots, a longer
    /// path resolved as its parent path and then its last key.
    pub open spec fn resolve(self, path: Seq<char>) -> Option<TargetModel>
        decreases path.len(),
    {
        match parent_path(path) {
            Some((left, key)) => {
                proof {
                    lemma_last_index_of(path, '.');
                }
                self.child(self.resolve(left), key)
            },
            None => match lookup(self.refs, path) {
                Some(id) => Some(TargetModel::Node(id)),
                None => None,
            },
        }
    }

    pub open spec fn set_node(self, id: nat, o: NodeModel) -> StoreModel {
        StoreModel { nodes: self.nodes.update(id as int, o), refs: self.refs, indexes: self.indexes }
    }

    pub open spec fn add_node(self, o: NodeModel) -> StoreModel {
        StoreModel { nodes: self.nodes.push(o), refs: self.refs, indexes: self.indexes }
    }

    /// The root name `name` refers to the node `id`.
    pub open spec fn bind(self, name: Seq<char>, id: nat) -> StoreModel {
        StoreModel { nodes: self.nodes, refs: upsert(self.refs, name, id), indexes: self.indexes }
    }

    /// Places the node `obj` at the path `var`. Below a parent that is an object,
    /// `obj` becomes the parent's entry for the last key; a missing parent is made
    /// an object holding that entry, and placed in turn. A root name is bound to
    /// `obj`, and when the name iterates over a list, `obj` is also appended to
    /// that list. The second component is the error message, if any.
    pub open spec fn create(self, var: Seq<char>, obj: nat) -> (StoreModel, Option<Seq<char>>)
        decreases var.len(),
    {
        match parent_path(var) {
            Some((left, key)) => {
                proof {
                    lemma_last_index_of(var, '.');
                }
                match self.resolve(left) {
                    Some(TargetModel::Node(id)) => match self.node(id) {
                        Some(NodeModel::Object(entries)) => (
                            self.set_node(id, NodeModel::Object(upsert(entries, key, obj))),
                            None,
                        ),
                        _ => (self, Some(left + " not an object"@)),
                    },
                    Some(TargetModel::ListSize(_)) => (self, Some(left + " not an object"@)),
                    None => self.add_node(NodeModel::Object(seq![(key, obj)])).create(
                        left,
                        self.nodes.len(),
                    ),
                }
            },
            None => {
                let bound = self.bind(var, obj);
                match lookup(self.indexes, var) {
                    Some(list_path) => match bound.resolve(list_path) {
                        Some(TargetModel::Node(lid)) => match bound.node(lid) {
                            Some(NodeModel::List(items)) => (
                                bound.set_node(lid, NodeModel::List(items.push(obj))),
                                None,
                            ),
                            _ => (bound, Some(var + " not an object"@)),
                        },
                        Some(TargetModel::ListSize(_)) => (bound, Some(var + " not an object"@)),
                        None => (bound, Some(var + " not found"@)),
                    },
                    None => (bound, Some(var + " not found"@)),
                }
            },
        }
    }

    /// The value a target stands for: a node's value (containers nested deeper than
    /// the number of nodes read as null), or a list size as a long.
    pub open spec fn target_value(self, t: TargetModel) -> ValueModel {
        match t {
            TargetModel::Node(id) => node_value(self.nodes, id, self.nodes.len()),
            TargetModel::ListSize(n) => ValueModel::Long(n as i64),
        }
    }

    /// The store after the fallback answered `answer` for a variable the store did not
    /// hold: for `path.size` an empty list is placed at `path` (the size itself is not
    /// kept); otherwise the answer is placed at the variable's path.
    pub open spec fn remember(self, var: Seq<char>, answer: ValueModel) -> StoreModel {
        match parent_path(var) {
            Some((left, key)) => if key == size_key() {
                self.add_node(NodeModel::List(Seq::empty())).create(left, self.nodes.len()).0
            } else {
                self.add_node(NodeModel::Final(answer)).create(var, self.nodes.len()).0
            },
            None => self.add_node(NodeModel::Final(answer)).create(var, self.nodes.len()).0,
        }
    }

    /// The store after saving `v` at the path `var`.
    pub open spec fn saved(self, var: Seq<char>, v: ValueModel) -> StoreModel {
        self.add_node(NodeModel::Final(v)).create(var, self.nodes.len()).0
    }

    /// The name `name` now iterates over the list at the path `list`.
    pub open spec fn index_ref(self, name: Seq<char>, list: Seq<char>) -> StoreModel {
        StoreModel { nodes: self.nodes, refs: self.refs, indexes: upsert(self.indexes, name, list) }
    }

    /// Binds `name` to element `i` of the list node `lid`; past the end of the list a
    /// new empty object or list (as `var_type` says) is appended and bound; for other
    /// types nothing is bound.
    pub open spec fn bind_ith(self, lid: nat, i: nat, name: Seq<char>, var_type: Option<VarType>) -> StoreModel {
        match self.node(lid) {
            Some(NodeModel::List(items)) => if i < items.len() {
                self.bind(name, items[i as int])
            } else if var_type == Some(VarType::Object) {
                self.add_node(NodeModel::Object(Seq::empty())).set_node(
                    lid,
                    NodeModel::List(items.push(self.nodes.len())),
                ).bind(name, self.nodes.len())
            } else if var_type == Some(VarType::List) {
                self.add_node(NodeModel::List(Seq::empty())).set_node(
                    lid,
                    NodeModel::List(items.push(self.nodes.len())),
                ).bind(name, self.nodes.len())
            } else {
                self
            },
            _ => self,
        }
    }

    /// Binds `name` to element `i` of the list at the path `list`. Where no list is
    /// at that path, a new empty list is made but not placed there, and `name` is
    /// bound into it as into any list. A path that names something other than a
    /// list leaves the store as it is.
    pub open spec fn load_ith(self, i: nat, name: Seq<char>, var_type: Option<VarType>, list: Seq<char>) -> StoreModel {
        match self.resolve(list) {
            Some(TargetModel::Node(lid)) => match self.node(lid) {
                Some(NodeModel::List(_)) => self.bind_ith(lid, i, name, var_type),
                _ => self,
            },
            Some(TargetModel::ListSize(_)) => self,
            None => self.add_node(NodeModel::List(Seq::empty())).bind_ith(
                self.nodes.len(),
                i,
                name,
                var_type,
            ),
        }
    }

/// Every root name and every child refers to an existing node.
    pub open spec fn wf(self) -> bool {
        self.closed_below(self.nodes.len())
    }

    /// The nodes below `base` form a store of their own: every root name and every
    /// child of such a node refers to a node below `base`.
    pub open spec fn closed_below(self, base: nat) -> bool {
        &&& base <= self.nodes.len()
        &&& forall|i: int| 0 <= i < self.refs.len() ==> #[trigger] self.refs[i].1 < base
        &&& forall|n: int| 0 <= n < base ==> children_below(#[trigger] self.nodes[n], base)
    }

    /// `other` has the same root names and index references, and the same nodes below `base`.
    pub open spec fn agrees_below(self, other: StoreModel, base: nat) -> bool {
        &&& self.refs == other.refs
        &&& self.indexes == other.indexes
        &&& base <= self.nodes.len()
        &&& base <= other.nodes.len()
        &&& forall|n: int| 0 <= n < base ==> #[trigger] self.nodes[n] == other.nodes[n]
    }

    /// The nodes from `base` on are no lists, and refer only to existing nodes.
    pub open spec fn fresh_above(self, base: nat) -> bool {
        forall|n: int|
            base <= n < self.nodes.len() ==> !(#[trigger] self.nodes[n] is List) && children_below(
                self.nodes[n],
                self.nodes.len(),
            )
    }

    /// `var` can be given a node: each missing parent can be made, and the nearest
    /// existing parent is an object that resolving its own path does not pass through.
    pub open spec fn placeable(self, var: Seq<char>) -> bool
        decreases var.len(),
    {
        match parent_path(var) {
            Some((left, _)) => {
                proof {
                    lemma_last_index_of(var, '.');
                }
                match self.resolve(left) {
                    Some(TargetModel::Node(p)) => {
                        &&& self.node(p) matches Some(NodeModel::Object(_))
                        &&& !self.passes_through(left, p)
                    },
                    Some(TargetModel::ListSize(_)) => false,
                    None => self.placeable(left),
                }
            },
            None => true,
        }
    }

    /// Placing the node `obj` at `var` leaves its parent reachable: where the parent
    /// path resolves to an object, it still resolves to that object once the
    /// object's entry for the last key is set to `obj`; where it resolves to
    /// nothing, the same holds one level up for the new object that will hold the
    /// entry. A parent that is no object, or a list size, does not count.
    pub open spec fn keeps_parent(self, var: Seq<char>, obj: nat) -> bool
        decreases var.len(),
    {
        match parent_path(var) {
            Some((left, key)) => {
                proof {
                    lemma_last_index_of(var, '.');
                }
                match self.resolve(left) {
                    Some(TargetModel::Node(p)) => match self.node(p) {
                        Some(NodeModel::Object(entries)) => self.set_node(
                            p,
                            NodeModel::Object(upsert(entries, key, obj)),
                        ).resolve(left) == Some(TargetModel::Node(p)),
                        _ => false,
                    },
                    Some(TargetModel::ListSize(_)) => false,
                    None => self.add_node(NodeModel::Object(seq![(key, obj)])).keeps_parent(
                        left,
                        self.nodes.len(),
                    ),
                }
            },
            None => true,
        }
    }

    /// Resolving `path` reads the node `p` on the way: some proper parent path of
    /// `path` resolves to `p`.
    pub open spec fn passes_through(self, path: Seq<char>, p: nat) -> bool
        decreases path.len(),
    {
        match parent_path(path) {
            Some((left, _)) => {
                proof {
                    lemma_last_index_of(path, '.');
                }
                self.resolve(left) == Some(TargetModel::Node(p)) || self.passes_through(left, p)
            },
            None => false,
        }
    }

        /// The root bindings without `key` and without every name below `key.`.
    pub open spec fn released(self, key: Seq<char>) -> StoreModel {
        StoreModel { nodes: self.nodes, refs: drop_names(self.refs, key), indexes: self.indexes }
    }
}

/// The children of a node are all below `bound`.
pub open spec fn children_below(o: NodeModel, bound: nat) -> bool {
    match o {
        NodeModel::Final(_) => true,
        NodeModel::Object(entries) => forall|i: int| 0 <= i < entries.len() ==> #[trigger] entries[i].1 < bound,
        NodeModel::List(items) => forall|i: int| 0 <= i < items.len() ==> #[trigger] items[i] < bound,
    }
}

/// `refs` without the entries named `key` or below `key.`.
pub open spec fn drop_names(refs: Seq<(Seq<char>, nat)>, key: Seq<char>) -> Seq<(Seq<char>, nat)>
    decreases refs.len(),
{
    if refs.len() == 0 {
        refs
    } else {
        let rest = drop_names(refs.drop_last(), key);
        let e = refs.last();
        if e.0 == key || is_below(e.0, key) {
            rest
        } else {
            rest.push(e)
        }
    }
}

/// Why a variable could not be placed.
#[derive(Debug)]
pub struct JourneyError {
    pub message: String,
}

pub open spec fn error_message(r: Result<(), JourneyError>) -> Option<Seq<char>> {
    match r {
        Ok(()) => None,
        Err(e) => Some(e.message@),
    }
}

/// `entries` with the entry for `key` set to `id`, or with `(key, id)` appended.
fn upsert_entry(entries: &mut Vec<(String, usize)>, key: String, id: usize)
    ensures
        final(entries)@.map_values(|e: (String, usize)| (e.0@, e.1 as nat)) == upsert(
            old(entries)@.map_values(|e: (String, usize)| (e.0@, e.1 as nat)),
            key@,
            id as nat,
        ),
{
    let ghost m = old(entries)@.map_values(|e: (String, usize)| (e.0@, e.1 as nat));
    proof {
        lemma_keys_agree(old(entries)@, m);
    }
    let ghost k = key@;
    match find_key(&key, entries) {
        Some(j) => {
            entries.set(j, (key, id));
            assert(entries@.map_values(|e: (String, usize)| (e.0@, e.1 as nat)) =~= m.update(
                j as int,
                (k, id as nat),
            ));
        },
        None => {
            entries.push((key, id));
            assert(entries@.map_values(|e: (String, usize)| (e.0@, e.1 as nat)) =~= m.push(
                (k, id as nat),
            ));
        },
    }
}

fn message(subject: &str, suffix: &str) -> (r: JourneyError)
    ensures
        r.message@ == subject@ + suffix@,
{
    let mut m = String::from_str(subject);
    m.append(suffix);
    JourneyError { message: m }
}

/// The store: the nodes (`value_store`), the root names (`reference_store`), the
/// index references, and the provider asked for what the store does not hold.
pub struct RCValueProvider<P> {
    pub fallback_provider: P,
    pub value_store: Vec<Object>,
    pub reference_store: Vec<(String, usize)>,
    pub indexes: Vec<(String, String)>,
}

impl<P> View for RCValueProvider<P> {
    type V = StoreModel;

    open spec fn view(&self) -> StoreModel {
        StoreModel {
            nodes: self.value_store@.map_values(|o: Object| o@),
            refs: self.reference_store@.map_values(|e: (String, usize)| (e.0@, e.1 as nat)),
            indexes: self.indexes@.map_values(|e: (String, String)| (e.0@, e.1@)),
        }
    }
}

proof fn lemma_keys_agree<V, W>(s: Seq<(String, V)>, m: Seq<(Seq<char>, W)>)
    requires
        m.len() == s.len(),
        forall|i: int| 0 <= i < s.len() ==> #[trigger] m[i].0 == s[i].0@,
    ensures
        keys_of(m) == s.map_values(|e: (String, V)| e.0@),
{
    assert(keys_of(m) =~= s.map_values(|e: (String, V)| e.0@));
}

fn is_size_key(k: &String) -> (r: bool)
    ensures
        r == (k@ == size_key()),
{
    let s = k.as_str();
    let n = s.unicode_len();
    if n != 4 {
        return false;
    }
    let r = s.get_char(0) == 's' && s.get_char(1) == 'i' && s.get_char(2) == 'z' && s.get_char(3)
        == 'e';
    assert(r == (s@ =~= size_key()));
    r
}

impl<P> RCValueProvider<P> {
    /// What `key` names inside the target `t`.
    fn child_of(&self, t: Option<Target>, key: &String) -> (r: Option<Target>)
        ensures
            target_view(r) == self@.child(target_view(t), key@),
    {
        match t {
            Some(Target::Node(id)) => {
                if id >= self.value_store.len() {
                    return None;
                }
                match &self.value_store[id] {
                    Object::Object(entries) => {
                        proof {
                            let me = entries@.map_values(|e: (String, usize)| (e.0@, e.1 as nat));
                            lemma_keys_agree(entries@, me);
                            lemma_first_index(key@, keys_of(me));
                        }
                        match find_key(key, entries) {
                            Some(j) => Some(Target::Node(entries[j].1)),
                            None => None,
                        }
                    },
                    Object::List(items) => {
                        if is_size_key(key) {
                            Some(Target::ListSize(items.len()))
                        } else {
                            None
                        }
                    },
                    Object::Final(_) => None,
                }
            },
            _ => None,
        }
    }

/// Adds a node and returns its index.
    pub fn add_node(&mut self, o: Object) -> (id: usize)
        ensures
            id == old(self)@.nodes.len(),
            final(self)@ == old(self)@.add_node(o@),
            final(self).fallback_provider == old(self).fallback_provider,
    {
        let id = self.value_store.len();
        let ghost om = o@;
        self.value_store.push(o);
        assert(self@.nodes =~= old(self)@.nodes.push(om));
        id
    }

    /// Binds the root name `name` to the node `id`.
    fn bind_root(&mut self, name: String, id: usize)
        ensures
            final(self)@ == old(self)@.bind(name@, id as nat),
            final(self).fallback_provider == old(self).fallback_provider,
    {
        upsert_entry(&mut self.reference_store, name, id);
    }

    /// Sets the entry `key` of the object node `id` to `obj`.
    fn insert_entry(&mut self, id: usize, key: String, obj: usize)
        requires
            id < old(self)@.nodes.len(),
            old(self)@.nodes[id as int] is Object,
        ensures
            final(self)@ == old(self)@.set_node(
                id as nat,
                NodeModel::Object(upsert(old(self)@.nodes[id as int]->Object_0, key@, obj as nat)),
            ),
            final(self).fallback_provider == old(self).fallback_provider,
    {
        let mut taken = Object::List(Vec::new());
        self.value_store.set_and_swap(id, &mut taken);
        match taken {
            Object::Object(mut entries) => {
                let ghost k = key@;
                upsert_entry(&mut entries, key, obj);
                let node = Object::Object(entries);
                let ghost nm = node@;
                self.value_store.set(id, node);
                assert(self@.nodes =~= old(self)@.nodes.update(id as int, nm));
            },
            _ => {
                assert(false);
            },
        }
    }

    /// Appends `obj` to the list node `id`.
    fn push_item(&mut self, id: usize, obj: usize)
        requires
            id < old(self)@.nodes.len(),
            old(self)@.nodes[id as int] is List,
        ensures
            final(self)@ == old(self)@.set_node(
                id as nat,
                NodeModel::List(old(self)@.nodes[id as int]->List_0.push(obj as nat)),
            ),
            final(self).fallback_provider == old(self).fallback_provider,
    {
        let mut taken = Object::List(Vec::new());
        self.value_store.set_and_swap(id, &mut taken);
        match taken {
            Object::List(mut items) => {
                let ghost before = items@.map_values(|i: usize| i as nat);
                items.push(obj);
                assert(items@.map_values(|i: usize| i as nat) =~= before.push(obj as nat));
                let node = Object::List(items);
                let ghost nm = node@;
                self.value_store.set(id, node);
                assert(self@.nodes =~= old(self)@.nodes.update(id as int, nm));
            },
            _ => {
                assert(false);
            },
        }
    }

    /// Places the node `object` at the path `var`, as `StoreModel::create` describes.
    pub fn create_object_at_path(&mut self, var: &str, object: usize) -> (r: Result<(), JourneyError>)
        ensures
            (final(self)@, error_message(r)) == old(self)@.create(var@, object as nat),
            final(self).fallback_provider == old(self).fallback_provider,
        decreases var@.len(),
    {
        proof {
            lemma_last_index_of(var@, '.');
        }
        match break_on(var, '.') {
            Some((left, right)) => {
                let parent = self.get_object_at_path(left.as_str());
                match parent {
                    Some(Target::Node(id)) => {
                        if id < self.value_store.len() {
                            let is_object = match &self.value_store[id] {
                                Object::Object(_) => true,
                                _ => false,
                            };
                            if is_object {
                                self.insert_entry(id, right, object);
                                return Ok(());
                            }
                        }
                        Err(message(left.as_str(), " not an object"))
                    },
                    Some(Target::ListSize(_)) => Err(message(left.as_str(), " not an object")),
                    None => {
                        let ghost k = right@;
                        let mut entries: Vec<(String, usize)> = Vec::new();
                        entries.push((right, object));
                        let node = Object::new_object_object(entries);
                        assert(node@ == NodeModel::Object(seq![(k, object as nat)])) by {
                            assert(entries@.map_values(|e: (String, usize)| (e.0@, e.1 as nat))
                                =~= seq![(k, object as nat)]);
                        }
                        let mid = self.add_node(node);
                        self.create_object_at_path(left.as_str(), mid)
                    },
                }
            },
            None => {
                let name = String::from_str(var);
                self.bind_root(name, object);
                let ghost bound = self@;
                let key = String::from_str(var);
                proof {
                    lemma_keys_agree(self.indexes@, self@.indexes);
                }
                match find_key(&key, &self.indexes) {
                    Some(j) => {
                        let target = self.get_object_at_path(self.indexes[j].1.as_str());
                        match target {
                            Some(Target::Node(lid)) => {
                                if lid < self.value_store.len() {
                                    let is_list = match &self.value_store[lid] {
                                        Object::List(_) => true,
                                        _ => false,
                                    };
                                    if is_list {
                                        self.push_item(lid, object);
                                        return Ok(());
                                    }
                                }
                                Err(message(var, " not an object"))
                            },
                            Some(Target::ListSize(_)) => Err(message(var, " not an object")),
                            None => Err(message(var, " not found")),
                        }
                    },
                    None => Err(message(var, " not found")),
                }
            },
        }
    }

/// The value that a target stands for.
    pub fn value_of(&self, t: Target) -> (r: Value)
        ensures
            r@ == self@.target_value(t@),
    {
        match t {
            Target::Node(id) => {
                if id < self.value_store.len() {
                    let ghost model = self.value_store@.map_values(|o: Object| o@);
                    assert(model[id as int] == self.value_store@[id as int]@);
                    self.value_store[id].to_value(&self.value_store, self.value_store.len())
                } else {
                    Value::Null
                }
            },
            Target::ListSize(n) => Value::Long(n as i64),
        }
    }

    /// Binds `name` to element `i` of the list node `lid`, as `StoreModel::bind_ith` says.
    fn bind_ith(&mut self, lid: usize, i: usize, name: &str, var_type: Option<VarType>)
        ensures
            final(self)@ == old(self)@.bind_ith(lid as nat, i as nat, name@, var_type),
            final(self).fallback_provider == old(self).fallback_provider,
    {
        if lid >= self.value_store.len() {
            return;
        }
        let len = match &self.value_store[lid] {
            Object::List(items) => items.len(),
            _ => {
                return;
            },
        };
        let ghost items = self@.nodes[lid as int]->List_0;
        if i < len {
            let id = match &self.value_store[lid] {
                Object::List(items) => items[i],
                _ => 0,
            };
            self.bind_root(String::from_str(name), id);
        } else if var_type == Some(VarType::Object) {
            let empty: Vec<(String, usize)> = Vec::new();
            assert(empty@.map_values(|e: (String, usize)| (e.0@, e.1 as nat)) =~= Seq::<
                (Seq<char>, nat),
            >::empty());
            let id = self.add_node(Object::new_object_object(empty));
            self.push_item(lid, id);
            self.bind_root(String::from_str(name), id);
        } else if var_type == Some(VarType::List) {
            let id = self.add_node(Object::new_list_object());
            self.push_item(lid, id);
            self.bind_root(String::from_str(name), id);
        }
    }

    /// The store with nothing in it, asking `fallback_provider` for what it does not hold.
    pub fn new(fallback_provider: P) -> (r: Self)
        ensures
            r@.nodes.len() == 0,
            r@.refs.len() == 0,
            r@.indexes.len() == 0,
            r.fallback_provider == fallback_provider,
    {
        RCValueProvider {
            fallback_provider,
            value_store: Vec::new(),
            reference_store: Vec::new(),
            indexes: Vec::new(),
        }
    }

    /// The node or list size that a dotted path names.
    pub fn get_object_at_path(&self, var: &str) -> (r: Option<Target>)
        ensures
            target_view(r) == self@.resolve(var@),
        decreases var@.len(),
    {
        proof {
            lemma_last_index_of(var@, '.');
        }
        match break_on(var, '.') {
            Some((left, right)) => {
                let parent = self.get_object_at_path(left.as_str());
                self.child_of(parent, &right)
            },
            None => {
                let name = String::from_str(var);
                proof {
                    lemma_keys_agree(self.reference_store@, self@.refs);
                }
                match find_key(&name, &self.reference_store) {
                    Some(j) => Some(Target::Node(self.reference_store[j].1)),
                    None => None,
                }
            },
        }
    }
}


/// One exchange between a provider and whoever is behind it: a variable asked
/// for (its name and type) with the value given back, a text passed on, or the
/// close of the conversation.
pub enum Exchange {
    Asked(Seq<char>, Option<VarType>, ValueModel),
    Told(Seq<char>),
    Closed,
}

/// A source and sink of variable values: the store itself, or whatever front
/// end asks the user. A provider whose `keeps_record` holds keeps `exchanges`,
/// the record of its exchanges so far, and its `read`, `write` and `close` are
/// held to extending it; by default a provider keeps no record and promises
/// nothing of one.
pub trait ValueProvider {
    open spec fn keeps_record() -> bool {
        false
    }

    open spec fn exchanges(&self) -> Seq<Exchange> {
        Seq::empty()
    }

    fn save(&mut self, var: Variable, value: Value);

    /// Asks for `variable` and gives back the answer.
    fn read(&mut self, variable: Variable) -> (r: Value)
        ensures
            Self::keeps_record() ==> final(self).exchanges() == old(self).exchanges().push(
                Exchange::Asked(variable.name@, variable.data_type, r@),
            ),
    ;

    /// Passes `text` on.
    fn write(&mut self, text: String)
        ensures
            Self::keeps_record() ==> final(self).exchanges() == old(self).exchanges().push(
                Exchange::Told(text@),
            ),
    ;

    fn set_index_ref(&mut self, index_ref_var: Variable, list_ref_var: Variable);

    fn done(&mut self, str: String);

    fn load_ith_as(&mut self, i: usize, index_ref_var: Variable, list_ref_var: Variable);

    fn load_value_as(&mut self, ref_var: Variable, val: Value);

    /// Closes the conversation.
    fn close(&mut self)
        ensures
            Self::keeps_record() ==> final(self).exchanges() == old(self).exchanges().push(
                Exchange::Closed,
            ),
    ;
}

pub fn copy_variable(v: &Variable) -> (r: Variable)
    ensures
        r.name@ == v.name@,
        r.data_type == v.data_type,
{
    Variable { name: v.name.clone(), data_type: v.data_type }
}

impl<P: ValueProvider> ValueProvider for RCValueProvider<P> {
    /// Places `value` at the path of `var`.
    fn save(&mut self, var: Variable, value: Value)
        ensures
            final(self)@ == old(self)@.saved(var.name@, value@),
            final(self).fallback_provider == old(self).fallback_provider,
    {
        let id = self.add_node(Object::Final(value));
        let _ = self.create_object_at_path(var.name.as_str(), id);
    }

    /// The value at the path of `variable`. A path the store resolves is answered
    /// from the store, and the fallback provider is left alone; any other variable
    /// is asked of the fallback provider, once, and its answer is given back and
    /// remembered (see `StoreModel::remember`).
    fn read(&mut self, variable: Variable) -> (r: Value)
        ensures
            match old(self)@.resolve(variable.name@) {
                Some(t) => {
                    &&& r@ == old(self)@.target_value(t)
                    &&& final(self)@ == old(self)@
                    &&& final(self).fallback_provider == old(self).fallback_provider
                },
                None => {
                    &&& final(self)@ == old(self)@.remember(variable.name@, r@)
                    &&& P::keeps_record() ==> final(self).fallback_provider.exchanges() == old(
                        self,
                    ).fallback_provider.exchanges().push(
                        Exchange::Asked(variable.name@, variable.data_type, r@),
                    )
                },
            },
    {
        match self.get_object_at_path(variable.name.as_str()) {
            Some(t) => self.value_of(t),
            None => {
                let split = break_on(variable.name.as_str(), '.');
                let size_of_list = match &split {
                    Some((_, right)) => is_size_key(right),
                    None => false,
                };
                if size_of_list {
                    let left = match split {
                        Some((left, _)) => left,
                        None => String::new(),
                    };
                    let id = self.add_node(Object::new_list_object());
                    let _ = self.create_object_at_path(left.as_str(), id);
                    self.fallback_provider.read(variable)
                } else {
                    let name = variable.name.clone();
                    let val = self.fallback_provider.read(variable);
                    let id = self.add_node(Object::Final(val.clone()));
                    let _ = self.create_object_at_path(name.as_str(), id);
                    val
                }
            },
        }
    }

    /// Passes `str` on to the fallback provider.
    fn write(&mut self, str: String)
        ensures
            final(self)@ == old(self)@,
            P::keeps_record() ==> final(self).fallback_provider.exchanges() == old(
                self,
            ).fallback_provider.exchanges().push(Exchange::Told(str@)),
    {
        self.fallback_provider.write(str)
    }

    /// Leaves the store and the fallback provider as they are: the store does not
    /// close the provider behind it.
    fn close(&mut self)
        ensures
            final(self)@ == old(self)@,
            final(self).fallback_provider == old(self).fallback_provider,
    {
    }

    /// The name of `as_ref` now iterates over the list at the path of `in_ref`.
    fn set_index_ref(&mut self, as_ref: Variable, in_ref: Variable)
        ensures
            final(self)@ == old(self)@.index_ref(as_ref.name@, in_ref.name@),
            final(self).fallback_provider == old(self).fallback_provider,
    {
        let ghost m = self.indexes@.map_values(|e: (String, String)| (e.0@, e.1@));
        let ghost k = as_ref.name@;
        let ghost v = in_ref.name@;
        proof {
            lemma_keys_agree(self.indexes@, m);
        }
        match find_key(&as_ref.name, &self.indexes) {
            Some(j) => {
                self.indexes.set(j, (as_ref.name, in_ref.name));
                assert(self.indexes@.map_values(|e: (String, String)| (e.0@, e.1@)) =~= m.update(
                    j as int,
                    (k, v),
                ));
            },
            None => {
                self.indexes.push((as_ref.name, in_ref.name));
                assert(self.indexes@.map_values(|e: (String, String)| (e.0@, e.1@)) =~= m.push(
                    (k, v),
                ));
            },
        }
    }

    /// Releases the root name `key` and every root name below `key.`.
    fn done(&mut self, key: String)
        ensures
            final(self)@ == old(self)@.released(key@),
            final(self).fallback_provider == old(self).fallback_provider,
    {
        let ghost refs = self@.refs;
        let mut kept: Vec<(String, usize)> = Vec::new();
        let mut i: usize = 0;
        while i < self.reference_store.len()
            invariant
                i <= self.reference_store.len(),
                refs == self@.refs,
                kept@.map_values(|e: (String, usize)| (e.0@, e.1 as nat)) == drop_names(
                    refs.take(i as int),
                    key@,
                ),
            decreases self.reference_store.len() - i,
        {
            let ghost before = kept@.map_values(|e: (String, usize)| (e.0@, e.1 as nat));
            assert(refs.take(i + 1).drop_last() =~= refs.take(i as int));
            let name = &self.reference_store[i].0;
            if !(*name == key || starts_below(name, &key)) {
                let entry = (name.clone(), self.reference_store[i].1);
                kept.push(entry);
                assert(kept@.map_values(|e: (String, usize)| (e.0@, e.1 as nat)) =~= before.push(
                    refs[i as int],
                ));
            }
            i = i + 1;
        }
        assert(refs.take(refs.len() as int) =~= refs);
        self.reference_store = kept;
    }

    /// Binds the name of `index_ref_var` to element `i` of the list at the path of
    /// `list_ref_var`, as `StoreModel::load_ith` describes.
    fn load_ith_as(&mut self, i: usize, index_ref_var: Variable, list_ref_var: Variable)
        ensures
            final(self)@ == old(self)@.load_ith(
                i as nat,
                index_ref_var.name@,
                index_ref_var.data_type,
                list_ref_var.name@,
            ),
            final(self).fallback_provider == old(self).fallback_provider,
    {
        match self.get_object_at_path(list_ref_var.name.as_str()) {
            Some(Target::Node(lid)) => {
                if lid < self.value_store.len() {
                    let is_list = match &self.value_store[lid] {
                        Object::List(_) => true,
                        _ => false,
                    };
                    if is_list {
                        self.bind_ith(lid, i, index_ref_var.name.as_str(), index_ref_var.data_type);
                    }
                }
            },
            Some(Target::ListSize(_)) => {},
            None => {
                let lid = self.add_node(Object::new_list_object());
                self.bind_ith(lid, i, index_ref_var.name.as_str(), index_ref_var.data_type);
            },
        }
    }

    /// Binds the name of `ref_var` to a new node holding `val`.
    fn load_value_as(&mut self, ref_var: Variable, val: Value)
        ensures
            final(self)@ == old(self)@.add_node(NodeModel::Final(val@)).bind(
                ref_var.name@,
                old(self)@.nodes.len(),
            ),
            final(self).fallback_provider == old(self).fallback_provider,
    {
        let id = self.add_node(Object::Final(val));
        self.bind_root(ref_var.name, id);
    }
}


/// Releasing `key` forgets the root name `key` and every root name below `key.`,
/// and no other.
pub proof fn lemma_done_releases(m: StoreModel, key: Seq<char>, n: Seq<char>)
    ensures
        lookup(m.released(key).refs, n) == if n == key || is_below(n, key) {
            None
        } else {
            lookup(m.refs, n)
        },
{
    lemma_drop_names_lookup(m.refs, key, n);
}

proof fn lemma_drop_names_lookup(refs: Seq<(Seq<char>, nat)>, key: Seq<char>, n: Seq<char>)
    ensures
        lookup(drop_names(refs, key), n) == if n == key || is_below(n, key) {
            None
        } else {
            lookup(refs, n)
        },
    decreases refs.len(),
{
    if refs.len() > 0 {
        let prefix = refs.drop_last();
        let e = refs.last();
        lemma_drop_names_lookup(prefix, key, n);
        assert(refs =~= prefix.push(e));
        lemma_lookup_push(prefix, e, n);
        if !(e.0 == key || is_below(e.0, key)) {
            lemma_lookup_push(drop_names(prefix, key), e, n);
        }
    } else {
        assert(keys_of(refs) =~= Seq::<Seq<char>>::empty());
    }
}

/// Binding a root name to a node: the name now resolves to that node.
proof fn lemma_bind_resolves(m: StoreModel, name: Seq<char>, id: nat)
    requires
        parent_path(name) is None,
    ensures
        m.bind(name, id).resolve(name) == Some(TargetModel::Node(id)),
{
    lemma_lookup_upsert(m.refs, name, id, name);
}

proof fn lemma_lookup_member<V>(s: Seq<(Seq<char>, V)>, k: Seq<char>)
    ensures
        lookup(s, k) matches Some(v) ==> exists|j: int| 0 <= j < s.len() && #[trigger] s[j].1 == v,
{
    lemma_first_index(k, keys_of(s));
    if let Some(v) = lookup(s, k) {
        let j = first_index(k, keys_of(s))->0;
        assert(s[j].1 == v);
    }
}

/// In a store closed below `base`, a path resolves only to nodes below `base`.
pub proof fn lemma_resolve_below(m: StoreModel, path: Seq<char>, base: nat)
    requires
        m.closed_below(base),
    ensures
        m.resolve(path) matches Some(TargetModel::Node(q)) ==> q < base,
    decreases path.len(),
{
    lemma_last_index_of(path, '.');
    match parent_path(path) {
        Some((left, key)) => {
            lemma_resolve_below(m, left, base);
            if let Some(TargetModel::Node(p)) = m.resolve(left) {
                if let Some(NodeModel::Object(entries)) = m.node(p) {
                    lemma_lookup_member(entries, key);
                    assert(children_below(m.nodes[p as int], base));
                }
            }
        },
        None => {
            lemma_lookup_member(m.refs, path);
        },
    }
}

/// Two stores that agree below `base`, the first closed below it, resolve every path
/// alike, pass through the same nodes, and can place the same variables.
pub proof fn lemma_paths_agree(m: StoreModel, m2: StoreModel, base: nat, path: Seq<char>, p: nat)
    requires
        m.closed_below(base),
        m.agrees_below(m2, base),
    ensures
        m2.resolve(path) == m.resolve(path),
        m2.passes_through(path, p) == m.passes_through(path, p),
        m2.placeable(path) == m.placeable(path),
    decreases path.len(),
{
    lemma_last_index_of(path, '.');
    match parent_path(path) {
        Some((left, key)) => {
            lemma_paths_agree(m, m2, base, left, p);
            lemma_resolve_below(m, left, base);
            if let Some(TargetModel::Node(q)) = m.resolve(left) {
                assert(m2.node(q) == m.node(q));
                lemma_paths_agree(m, m2, base, left, q);
            }
        },
        None => {},
    }
}

/// Changing a node that resolving `path` does not pass through leaves what `path`
/// resolves to as it was.
pub proof fn lemma_set_node_off_path(m: StoreModel, p: nat, o: NodeModel, path: Seq<char>)
    requires
        p < m.nodes.len(),
        !m.passes_through(path, p),
    ensures
        m.set_node(p, o).resolve(path) == m.resolve(path),
    decreases path.len(),
{
    lemma_last_index_of(path, '.');
    match parent_path(path) {
        Some((left, key)) => {
            lemma_set_node_off_path(m, p, o, left);
            if let Some(TargetModel::Node(q)) = m.resolve(left) {
                assert(q != p);
                assert(m.set_node(p, o).node(q) == m.node(q));
            }
        },
        None => {},
    }
}

/// Placing a node changes no node from `base` on, when those nodes are no lists
/// and the store below `base` is closed.
proof fn lemma_create_frame(m: StoreModel, var: Seq<char>, obj: nat, base: nat)
    requires
        m.closed_below(base),
        m.fresh_above(base),
        obj < m.nodes.len(),
    ensures
        m.create(var, obj).0.nodes.len() >= m.nodes.len(),
        forall|q: int| base <= q < m.nodes.len() ==> #[trigger] m.create(var, obj).0.nodes[q] == m.nodes[q],
    decreases var.len(),
{
    lemma_last_index_of(var, '.');
    match parent_path(var) {
        Some((left, key)) => {
            lemma_resolve_below(m, left, base);
            if m.resolve(left) is None {
                let mid = m.nodes.len();
                let o = NodeModel::Object(seq![(key, obj)]);
                let m2 = m.add_node(o);
                assert(m.agrees_below(m2, base));
                assert(m2.closed_below(base)) by {
                    assert forall|n: int| 0 <= n < base implies children_below(#[trigger] m2.nodes[n], base) by {
                        assert(m2.nodes[n] == m.nodes[n]);
                    }
                }
                assert(m2.fresh_above(base)) by {
                    assert forall|n: int| base <= n < m2.nodes.len() implies !(#[trigger] m2.nodes[n] is List)
                        && children_below(m2.nodes[n], m2.nodes.len()) by {
                        if n < mid {
                            assert(m2.nodes[n] == m.nodes[n]);
                            assert(children_below(m.nodes[n], m.nodes.len()));
                        }
                    }
                }
                lemma_create_frame(m2, left, mid, base);
            }
        },
        None => {},
    }
}

/// Placing a fresh node at a placeable path makes the path resolve to it.
proof fn lemma_create_places(m: StoreModel, var: Seq<char>, obj: nat, base: nat)
    requires
        m.closed_below(base),
        m.fresh_above(base),
        obj < m.nodes.len(),
        m.placeable(var),
    ensures
        m.create(var, obj).0.resolve(var) == Some(TargetModel::Node(obj)),
    decreases var.len(),
{
    lemma_last_index_of(var, '.');
    match parent_path(var) {
        Some((left, key)) => {
            lemma_resolve_below(m, left, base);
            match m.resolve(left) {
                Some(TargetModel::Node(p)) => {
                    let entries = m.nodes[p as int]->Object_0;
                    let o = NodeModel::Object(upsert(entries, key, obj));
                    let r = m.create(var, obj).0;
                    assert(r == m.set_node(p, o));
                    lemma_set_node_off_path(m, p, o, left);
                    lemma_lookup_upsert(entries, key, obj, key);
                    assert(r.resolve(var) == r.child(r.resolve(left), key));
                },
                Some(TargetModel::ListSize(_)) => {},
                None => {
                    let mid = m.nodes.len();
                    let o = NodeModel::Object(seq![(key, obj)]);
                    let m2 = m.add_node(o);
                    assert(m.agrees_below(m2, base));
                    lemma_paths_agree(m, m2, base, left, 0);
                    assert(m2.closed_below(base)) by {
                        assert forall|n: int| 0 <= n < base implies children_below(#[trigger] m2.nodes[n], base) by {
                            assert(m2.nodes[n] == m.nodes[n]);
                        }
                    }
                    assert(m2.fresh_above(base)) by {
                        assert forall|n: int| base <= n < m2.nodes.len() implies !(#[trigger] m2.nodes[n] is List)
                            && children_below(m2.nodes[n], m2.nodes.len()) by {
                            if n < mid {
                                assert(m2.nodes[n] == m.nodes[n]);
                                assert(children_below(m.nodes[n], m.nodes.len()));
                            }
                        }
                    }
                    lemma_create_places(m2, left, mid, base);
                    lemma_create_frame(m2, left, mid, base);
                    let r = m2.create(left, mid).0;
                    assert(r == m.create(var, obj).0);
                    assert(r.nodes[mid as int] == o);
                    lemma_first_index(key, keys_of(seq![(key, obj)]));
                    assert(keys_of(seq![(key, obj)])[0] == key);
                    assert(lookup(seq![(key, obj)], key) == Some(obj));
                    assert(r.resolve(var) == r.child(r.resolve(left), key));
                },
            }
        },
        None => {
            lemma_lookup_upsert(m.refs, var, obj, var);
        },
    }
}

/// What is saved is read back: in a well-formed store, saving `v` at a placeable
/// path makes the path resolve to a node that holds `v`.
pub proof fn lemma_save_reads_back(m: StoreModel, var: Seq<char>, v: ValueModel)
    requires
        m.wf(),
        m.placeable(var),
    ensures
        m.saved(var, v).resolve(var) == Some(TargetModel::Node(m.nodes.len())),
        m.saved(var, v).target_value(TargetModel::Node(m.nodes.len())) == v,
{
    let base = m.nodes.len();
    let m1 = m.add_node(NodeModel::Final(v));
    assert(m.agrees_below(m1, base));
    lemma_paths_agree(m, m1, base, var, 0);
    assert(m1.closed_below(base)) by {
        assert forall|n: int| 0 <= n < base implies children_below(#[trigger] m1.nodes[n], base) by {
            assert(m1.nodes[n] == m.nodes[n]);
        }
    }
    assert(m1.fresh_above(base));
    lemma_create_places(m1, var, base, base);
    lemma_create_frame(m1, var, base, base);
    let r = m1.create(var, base).0;
    assert(r.nodes[base as int] == NodeModel::Final(v));
}

/// What is placed is found there: in a well-formed store, placing any node at a
/// path whose parent stays reachable (see `StoreModel::keeps_parent`) makes the
/// path resolve to that node, whether or not the placing reports an error.
pub proof fn lemma_create_reads_back(m: StoreModel, var: Seq<char>, obj: nat)
    requires
        m.wf(),
        obj < m.nodes.len(),
        m.keeps_parent(var, obj),
    ensures
        m.create(var, obj).0.resolve(var) == Some(TargetModel::Node(obj)),
    decreases var.len(),
{
    lemma_last_index_of(var, '.');
    match parent_path(var) {
        Some((left, key)) => {
            match m.resolve(left) {
                Some(TargetModel::Node(p)) => {
                    let entries = m.nodes[p as int]->Object_0;
                    let o = NodeModel::Object(upsert(entries, key, obj));
                    let r = m.create(var, obj).0;
                    assert(r == m.set_node(p, o));
                    lemma_lookup_upsert(entries, key, obj, key);
                    assert(r.resolve(var) == r.child(r.resolve(left), key));
                },
                Some(TargetModel::ListSize(_)) => {},
                None => {
                    let mid = m.nodes.len();
                    let o = NodeModel::Object(seq![(key, obj)]);
                    let m2 = m.add_node(o);
                    assert(m2.wf()) by {
                        assert forall|n: int| 0 <= n < m2.nodes.len() implies children_below(
                            #[trigger] m2.nodes[n],
                            m2.nodes.len(),
                        ) by {
                            if n < mid {
                                assert(m2.nodes[n] == m.nodes[n]);
                                lemma_children_below_grow(m.nodes[n], mid, m2.nodes.len());
                            }
                        }
                    }
                    lemma_create_reads_back(m2, left, mid);
                    assert(m2.closed_below(mid)) by {
                        assert forall|n: int| 0 <= n < mid implies children_below(
                            #[trigger] m2.nodes[n],
                            mid,
                        ) by {
                            assert(m2.nodes[n] == m.nodes[n]);
                        }
                    }
                    lemma_create_frame(m2, left, mid, mid);
                    let r = m2.create(left, mid).0;
                    assert(r == m.create(var, obj).0);
                    assert(r.nodes[mid as int] == o);
                    lemma_first_index(key, keys_of(seq![(key, obj)]));
                    assert(keys_of(seq![(key, obj)])[0] == key);
                    assert(lookup(seq![(key, obj)], key) == Some(obj));
                    assert(r.resolve(var) == r.child(r.resolve(left), key));
                },
            }
        },
        None => {
            lemma_lookup_upsert(m.refs, var, obj, var);
        },
    }
}

/// Saving a value at `left.k`, where `left` resolves to an object that resolving
/// `left` does not itself pass through: `left.k` then reads back that value, and the
/// object is updated in place, so every list or name that holds it sees the entry.
pub proof fn lemma_save_below_object_reads_back(
    m: StoreModel,
    var: Seq<char>,
    left: Seq<char>,
    k: Seq<char>,
    p: nat,
    v: ValueModel,
)
    requires
        m.wf(),
        parent_path(var) == Some((left, k)),
        m.resolve(left) == Some(TargetModel::Node(p)),
        m.node(p) matches Some(NodeModel::Object(_)),
        !m.passes_through(left, p),
    ensures
        m.saved(var, v).resolve(var) == Some(TargetModel::Node(m.nodes.len())),
        m.saved(var, v).target_value(TargetModel::Node(m.nodes.len())) == v,
        m.saved(var, v).node(p) == Some(
            NodeModel::Object(upsert(m.nodes[p as int]->Object_0, k, m.nodes.len())),
        ),
{
    let id = m.nodes.len();
    let m1 = m.add_node(NodeModel::Final(v));
    lemma_last_index_of(var, '.');
    assert(m.agrees_below(m1, m.nodes.len()));
    lemma_paths_agree(m, m1, m.nodes.len(), left, p);
    lemma_resolve_below(m, left, m.nodes.len());
    let entries = m.nodes[p as int]->Object_0;
    assert(m1.node(p) == m.node(p));
    let o = NodeModel::Object(upsert(entries, k, id));
    let r = m1.create(var, id).0;
    assert(r == m1.set_node(p, o));
    lemma_set_node_off_path(m1, p, o, left);
    lemma_lookup_upsert(entries, k, id, k);
    assert(r.resolve(var) == r.child(r.resolve(left), k));
    assert(r.nodes[id as int] == NodeModel::Final(v));
}

/// What the fallback answered is remembered: in a well-formed store, after a read of
/// a placeable variable that is not a list size, reading it again gives the same
/// value without asking.
pub proof fn lemma_read_remembers(m: StoreModel, var: Seq<char>, v: ValueModel)
    requires
        m.wf(),
        m.placeable(var),
        parent_path(var) matches Some((_, k)) ==> k != size_key(),
    ensures
        m.remember(var, v).resolve(var) matches Some(t) && m.remember(var, v).target_value(t) == v,
{
    lemma_save_reads_back(m, var, v);
}

proof fn lemma_children_below_grow(o: NodeModel, b1: nat, b2: nat)
    requires
        children_below(o, b1),
        b1 <= b2,
    ensures
        children_below(o, b2),
{
}

proof fn lemma_upsert_below(s: Seq<(Seq<char>, nat)>, k: Seq<char>, v: nat, bound: nat)
    requires
        forall|i: int| 0 <= i < s.len() ==> #[trigger] s[i].1 < bound,
        v < bound,
    ensures
        forall|i: int| 0 <= i < upsert(s, k, v).len() ==> #[trigger] upsert(s, k, v)[i].1 < bound,
{
    lemma_first_index(k, keys_of(s));
}

proof fn lemma_drop_names_below(refs: Seq<(Seq<char>, nat)>, key: Seq<char>, bound: nat)
    requires
        forall|i: int| 0 <= i < refs.len() ==> #[trigger] refs[i].1 < bound,
    ensures
        forall|i: int| 0 <= i < drop_names(refs, key).len() ==> #[trigger] drop_names(refs, key)[i].1 < bound,
    decreases refs.len(),
{
    if refs.len() > 0 {
        let prefix = refs.drop_last();
        assert(forall|i: int| 0 <= i < prefix.len() ==> prefix[i] == refs[i]);
        lemma_drop_names_below(prefix, key, bound);
        let rest = drop_names(prefix, key);
        let e = refs.last();
        assert(e.1 < bound);
        assert(forall|i: int| 0 <= i < rest.push(e).len() ==> #[trigger] rest.push(e)[i].1 < bound) by {
            assert forall|i: int| 0 <= i < rest.push(e).len() implies #[trigger] rest.push(e)[i].1 < bound by {
                if i < rest.len() {
                    assert(rest.push(e)[i] == rest[i]);
                }
            }
        }
    }
}

proof fn lemma_add_node_wf(m: StoreModel, o: NodeModel)
    requires
        m.wf(),
        children_below(o, m.nodes.len() + 1),
    ensures
        m.add_node(o).wf(),
{
    let m2 = m.add_node(o);
    assert forall|n: int| 0 <= n < m2.nodes.len() implies children_below(#[trigger] m2.nodes[n], m2.nodes.len()) by {
        if n < m.nodes.len() {
            assert(m2.nodes[n] == m.nodes[n]);
            lemma_children_below_grow(m.nodes[n], m.nodes.len(), m2.nodes.len());
        }
    }
}

proof fn lemma_bind_wf(m: StoreModel, name: Seq<char>, id: nat)
    requires
        m.wf(),
        id < m.nodes.len(),
    ensures
        m.bind(name, id).wf(),
{
    lemma_upsert_below(m.refs, name, id, m.nodes.len());
}

proof fn lemma_set_node_wf(m: StoreModel, id: nat, o: NodeModel)
    requires
        m.wf(),
        id < m.nodes.len(),
        children_below(o, m.nodes.len()),
    ensures
        m.set_node(id, o).wf(),
{
    let m2 = m.set_node(id, o);
    assert forall|n: int| 0 <= n < m2.nodes.len() implies children_below(#[trigger] m2.nodes[n], m2.nodes.len()) by {
        if n != id {
            assert(m2.nodes[n] == m.nodes[n]);
        }
    }
}

proof fn lemma_create_wf(m: StoreModel, var: Seq<char>, obj: nat)
    requires
        m.wf(),
        obj < m.nodes.len(),
    ensures
        m.create(var, obj).0.wf(),
    decreases var.len(),
{
    lemma_last_index_of(var, '.');
    match parent_path(var) {
        Some((left, key)) => {
            lemma_resolve_below(m, left, m.nodes.len());
            match m.resolve(left) {
                Some(TargetModel::Node(p)) => {
                    if let Some(NodeModel::Object(entries)) = m.node(p) {
                        assert(children_below(m.nodes[p as int], m.nodes.len()));
                        lemma_upsert_below(entries, key, obj, m.nodes.len());
                        lemma_set_node_wf(m, p, NodeModel::Object(upsert(entries, key, obj)));
                    }
                },
                Some(TargetModel::ListSize(_)) => {},
                None => {
                    let o = NodeModel::Object(seq![(key, obj)]);
                    lemma_add_node_wf(m, o);
                    lemma_create_wf(m.add_node(o), left, m.nodes.len());
                },
            }
        },
        None => {
            lemma_bind_wf(m, var, obj);
            let bound = m.bind(var, obj);
            if let Some(list_path) = lookup(m.indexes, var) {
                lemma_resolve_below(bound, list_path, bound.nodes.len());
                if let Some(TargetModel::Node(lid)) = bound.resolve(list_path) {
                    if let Some(NodeModel::List(items)) = bound.node(lid) {
                        assert(children_below(bound.nodes[lid as int], bound.nodes.len()));
                        lemma_set_node_wf(bound, lid, NodeModel::List(items.push(obj)));
                    }
                }
            }
        },
    }
}

proof fn lemma_bind_ith_wf(m: StoreModel, lid: nat, i: nat, name: Seq<char>, var_type: Option<VarType>)
    requires
        m.wf(),
    ensures
        m.bind_ith(lid, i, name, var_type).wf(),
{
    if let Some(NodeModel::List(items)) = m.node(lid) {
        assert(children_below(m.nodes[lid as int], m.nodes.len()));
        let id = m.nodes.len();
        if i < items.len() {
            lemma_bind_wf(m, name, items[i as int]);
        } else if var_type == Some(VarType::Object) || var_type == Some(VarType::List) {
            let o = if var_type == Some(VarType::Object) {
                NodeModel::Object(Seq::empty())
            } else {
                NodeModel::List(Seq::empty())
            };
            lemma_add_node_wf(m, o);
            let m2 = m.add_node(o);
            assert(m2.nodes[lid as int] == m.nodes[lid as int]);
            lemma_set_node_wf(m2, lid, NodeModel::List(items.push(id)));
            lemma_bind_wf(m2.set_node(lid, NodeModel::List(items.push(id))), name, id);
        }
    }
}

/// Every operation keeps a store well formed (every name and child refers to an
/// existing node); a new store, having no nodes and no names, is well formed.
pub proof fn lemma_operations_keep_wf(
    m: StoreModel,
    var: Seq<char>,
    name: Seq<char>,
    v: ValueModel,
    i: nat,
    var_type: Option<VarType>,
)
    requires
        m.wf(),
    ensures
        m.saved(var, v).wf(),
        m.remember(var, v).wf(),
        m.load_ith(i, name, var_type, var).wf(),
        m.released(name).wf(),
        m.index_ref(name, var).wf(),
        m.add_node(NodeModel::Final(v)).bind(name, m.nodes.len()).wf(),
        (StoreModel { nodes: Seq::empty(), refs: Seq::empty(), indexes: Seq::empty() }).wf(),
{
    let len = m.nodes.len();
    let fin = NodeModel::Final(v);
    lemma_add_node_wf(m, fin);
    lemma_create_wf(m.add_node(fin), var, len);
    let list = NodeModel::List(Seq::empty());
    lemma_add_node_wf(m, list);
    lemma_last_index_of(var, '.');
    if let Some((left, _)) = parent_path(var) {
        lemma_create_wf(m.add_node(list), left, len);
    }
    lemma_bind_wf(m.add_node(fin), name, len);
    lemma_drop_names_below(m.refs, name, len);
    lemma_resolve_below(m, var, len);
    match m.resolve(var) {
        Some(TargetModel::Node(lid)) => {
            lemma_bind_ith_wf(m, lid, i, name, var_type);
        },
        Some(TargetModel::ListSize(_)) => {},
        None => {
            lemma_bind_ith_wf(m.add_node(list), len, i, name, var_type);
        },
    }
}

/// Reading `list.size` where `list` names a list gives the number of its elements.
pub proof fn lemma_list_size_read(m: StoreModel, list: Seq<char>, lid: nat, items: Seq<nat>)
    requires
        m.resolve(list) == Some(TargetModel::Node(lid)),
        m.node(lid) == Some(NodeModel::List(items)),
        items.len() <= i64::MAX,
    ensures
        m.resolve(list + seq!['.', 's', 'i', 'z', 'e']) == Some(TargetModel::ListSize(items.len())),
        m.target_value(TargetModel::ListSize(items.len())) == ValueModel::Long(items.len() as i64),
{
    let path = list + seq!['.', 's', 'i', 'z', 'e'];
    assert(path.drop_last().drop_last().drop_last().drop_last() =~= list + seq!['.']);
    reveal_with_fuel(last_index_of, 6);
    assert(last_index_of(path, '.') == Some(list.len() as int));
    assert(path.take(list.len() as int) =~= list);
    assert(path.skip(list.len() as int + 1) =~= size_key());
    assert(parent_path(path) == Some((list, size_key())));
}

/// Loading element `i` at or past the end of a list, for a variable of type list
/// or object, appends a new empty list or object to the list and binds the root
/// name to that new element, so what is written below the name lands in the list.
pub proof fn lemma_load_ith_appends_element(
    m: StoreModel,
    i: nat,
    name: Seq<char>,
    var_type: Option<VarType>,
    list: Seq<char>,
    lid: nat,
    items: Seq<nat>,
)
    requires
        parent_path(name) is None,
        m.resolve(list) == Some(TargetModel::Node(lid)),
        m.node(lid) == Some(NodeModel::List(items)),
        items.len() <= i,
        var_type == Some(VarType::List) || var_type == Some(VarType::Object),
    ensures
        m.load_ith(i, name, var_type, list).resolve(name) == Some(TargetModel::Node(m.nodes.len())),
        m.load_ith(i, name, var_type, list).node(lid) == Some(
            NodeModel::List(items.push(m.nodes.len())),
        ),
        m.load_ith(i, name, var_type, list).node(m.nodes.len()) == Some(
            if var_type == Some(VarType::List) {
                NodeModel::List(Seq::empty())
            } else {
                NodeModel::Object(Seq::empty())
            },
        ),
        m.load_ith(i, name, var_type, list).nodes.len() == m.nodes.len() + 1,
{
    let id = m.nodes.len();
    let o = if var_type == Some(VarType::List) {
        NodeModel::List(Seq::empty())
    } else {
        NodeModel::Object(Seq::empty())
    };
    let m2 = m.add_node(o).set_node(lid, NodeModel::List(items.push(id)));
    assert(m.load_ith(i, name, var_type, list) == m2.bind(name, id));
    lemma_bind_resolves(m2, name, id);
}

/// Loading element `i` of a list that has it binds the root name to that element.
pub proof fn lemma_load_ith_binds_element(
    m: StoreModel,
    i: nat,
    name: Seq<char>,
    var_type: Option<VarType>,
    list: Seq<char>,
    lid: nat,
    items: Seq<nat>,
)
    requires
        parent_path(name) is None,
        m.resolve(list) == Some(TargetModel::Node(lid)),
        m.node(lid) == Some(NodeModel::List(items)),
        i < items.len(),
    ensures
        m.load_ith(i, name, var_type, list).resolve(name) == Some(TargetModel::Node(items[i as int])),
{
    lemma_bind_resolves(m, name, items[i as int]);
}

} // verus!
