//! A device registry backed by an unbalanced binary search tree keyed by the
//! device's numeric id. Devices with ids at least as large as a node's go to
//! its left subtree, smaller ids to its right, so an in-order walk yields the
//! devices in non-increasing id order.

use vstd::prelude::*;

verus! {

/// A registered device, as plain mathematical values: id, address, path.
pub open spec fn dev_view(d: IotDevice) -> (u64, Seq<char>, Seq<char>) {
    (d.numeric_id, d.address@, d.path@)
}

/// Device sequences as plain mathematical values.
pub open spec fn devs_view(s: Seq<IotDevice>) -> Seq<(u64, Seq<char>, Seq<char>)> {
    s.map_values(|d: IotDevice| dev_view(d))
}

/// One registered device.
pub struct IotDevice {
    pub numeric_id: u64,
    pub address: String,
    pub path: String,
}

impl IotDevice {
    /// Builds a device record from its parts.
    pub fn new(id: u64, address: String, path: String) -> (d: IotDevice)
        ensures
            d.numeric_id == id,
            d.address == address,
            d.path == path,
    {
        IotDevice { numeric_id: id, address, path }
    }

    /// A field-for-field copy.
    fn duplicate(&self) -> (d: IotDevice)
        ensures
            d == *self,
    {
        IotDevice {
            numeric_id: self.numeric_id,
            address: self.address.clone(),
            path: self.path.clone(),
        }
    }
}

/// One tree node: a device and its two subtrees.
pub struct Node {
    pub dev: IotDevice,
    left: Option<Box<Node>>,
    right: Option<Box<Node>>,
}

/// The devices of a subtree, in order: left subtree, node, right subtree.
pub closed spec fn tree_devices(t: Option<Box<Node>>) -> Seq<(u64, Seq<char>, Seq<char>)>
    decreases t,
{
    match t {
        None => Seq::empty(),
        Some(n) => tree_devices(n.left) + seq![dev_view(n.dev)] + tree_devices(n.right),
    }
}

/// The search-tree order: left ids at least the node's, right ids below it,
/// recursively.
pub closed spec fn tree_wf(t: Option<Box<Node>>) -> bool
    decreases t,
{
    match t {
        None => true,
        Some(n) => {
            &&& tree_wf(n.left)
            &&& tree_wf(n.right)
            &&& forall|k: int|
                0 <= k < tree_devices(n.left).len() ==> (#[trigger] tree_devices(n.left)[k]).0
                    >= n.dev.numeric_id
            &&& forall|k: int|
                0 <= k < tree_devices(n.right).len() ==> (#[trigger] tree_devices(n.right)[k]).0
                    < n.dev.numeric_id
        },
    }
}

impl Node {
    /// A leaf holding `dev`.
    pub fn new(dev: IotDevice) -> (t: Option<Box<Node>>)
        ensures
            tree_wf(t),
            tree_devices(t) == seq![dev_view(dev)],
    {
        let t = Some(Box::new(Node { dev, left: None, right: None }));
        proof {
            let n = *t.unwrap();
            assert(n.left is None && n.right is None);
            assert(tree_devices(n.left) == Seq::<(u64, Seq<char>, Seq<char>)>::empty());
            assert(tree_devices(t) == tree_devices(n.left) + seq![dev_view(n.dev)] + tree_devices(
                n.right,
            ));
            assert(tree_devices(t) =~~= seq![dev_view(n.dev)]);
            assert(tree_wf(n.left) && tree_wf(n.right));
            assert(tree_devices(n.right) == Seq::<(u64, Seq<char>, Seq<char>)>::empty());
            assert(tree_wf(t));
        }
        t
    }
}

/// The registry: the tree's root and the count of devices added.
pub struct DeviceRegistry {
    root: Option<Box<Node>>,
    pub length: u64,
}

impl DeviceRegistry {
    /// All registered devices, in non-increasing id order.
    pub closed spec fn devices(self) -> Seq<(u64, Seq<char>, Seq<char>)> {
        tree_devices(self.root)
    }

    /// The device count, as contracts speak of it.
    pub closed spec fn spec_length(self) -> u64 {
        self.length
    }

    /// The tree is ordered and the count matches it.
    pub closed spec fn wf(self) -> bool {
        tree_wf(self.root) && self.length == self.devices().len()
    }

    /// Builds a registry with no devices.
    pub fn new_empty() -> (registry: DeviceRegistry)
        ensures
            registry.wf(),
            registry.spec_length() == 0,
            registry.devices() == Seq::<(u64, Seq<char>, Seq<char>)>::empty(),
    {
        DeviceRegistry { root: None, length: 0 }
    }

    /// Registers a device: its place in the tree follows its numeric id.
    pub fn add(&mut self, device: IotDevice)
        requires
            old(self).wf(),
            old(self).spec_length() < u64::MAX,
        ensures
            final(self).wf(),
            final(self).spec_length() == old(self).spec_length() + 1,
            final(self).devices().to_multiset() == old(self).devices().to_multiset().insert(
                dev_view(device),
            ),
    {
        self.length = self.length + 1;
        let root = self.root.take();
        self.root = Self::add_rec(root, device);
        proof {
            broadcast use vstd::seq_lib::group_to_multiset_ensures;

            assert(self.devices().to_multiset().len() == self.devices().len());
            assert(old(self).devices().to_multiset().len() == old(self).devices().len());
        }
    }

    /// Descends to the leaf position that the id order gives the device and
    /// grows a leaf there.
    fn add_rec(node: Option<Box<Node>>, device: IotDevice) -> (res: Option<Box<Node>>)
        requires
            tree_wf(node),
        ensures
            tree_wf(res),
            tree_devices(res).to_multiset() == tree_devices(node).to_multiset().insert(
                dev_view(device),
            ),
        decreases node,
    {
        proof {
            broadcast use vstd::seq_lib::group_to_multiset_ensures;
            broadcast use vstd::seq_lib::lemma_multiset_commutative;
            broadcast use vstd::multiset::group_multiset_axioms;

        }
        match node {
            Some(mut n) => {
                let ghost pre = *n;
                if n.dev.numeric_id <= device.numeric_id {
                    let left = n.left.take();
                    n.left = Self::add_rec(left, device);
                    proof {
                        Self::lemma_rebuilt_node(*n, pre, device, true);
                    }
                } else {
                    let right = n.right.take();
                    n.right = Self::add_rec(right, device);
                    proof {
                        Self::lemma_rebuilt_node(*n, pre, device, false);
                    }
                }
                Some(n)
            },
            None => Node::new(device),
        }
    }

    /// A node whose one subtree took `device` in is still ordered, and its
    /// devices are the old ones plus `device`.
    proof fn lemma_rebuilt_node(n: Node, pre: Node, device: IotDevice, went_left: bool)
        requires
            tree_wf(pre.left),
            tree_wf(pre.right),
            tree_wf(Some(Box::new(pre))),
            n.dev == pre.dev,
            went_left ==> {
                &&& pre.dev.numeric_id <= device.numeric_id
                &&& n.right == pre.right
                &&& tree_wf(n.left)
                &&& tree_devices(n.left).to_multiset() == tree_devices(pre.left).to_multiset()
                    .insert(dev_view(device))
            },
            !went_left ==> {
                &&& pre.dev.numeric_id > device.numeric_id
                &&& n.left == pre.left
                &&& tree_wf(n.right)
                &&& tree_devices(n.right).to_multiset() == tree_devices(pre.right).to_multiset()
                    .insert(dev_view(device))
            },
        ensures
            tree_wf(Some(Box::new(n))),
            tree_devices(Some(Box::new(n))).to_multiset() == tree_devices(
                Some(Box::new(pre)),
            ).to_multiset().insert(dev_view(device)),
    {
        broadcast use vstd::seq_lib::group_to_multiset_ensures;
        broadcast use vstd::seq_lib::lemma_multiset_commutative;
        broadcast use vstd::multiset::group_multiset_axioms;

        let l = tree_devices(n.left);
        let r = tree_devices(n.right);
        let mid = seq![dev_view(n.dev)];
        assert(tree_devices(Some(Box::new(n))) == l + mid + r);
        assert(tree_devices(Some(Box::new(pre))) == tree_devices(pre.left) + mid + tree_devices(
            pre.right,
        ));
        if went_left {
            assert forall|k: int| 0 <= k < l.len() implies (#[trigger] l[k]).0
                >= n.dev.numeric_id by {
                assert(l.to_multiset().count(l[k]) > 0);
                if tree_devices(pre.left).to_multiset().count(l[k]) > 0 {
                    assert(tree_devices(pre.left).contains(l[k]));
                    let k2 = choose|k2: int|
                        0 <= k2 < tree_devices(pre.left).len() && tree_devices(pre.left)[k2] == l[k];
                    assert(tree_devices(pre.left)[k2].0 >= pre.dev.numeric_id);
                } else {
                    assert(l[k] == dev_view(device));
                }
            }
        } else {
            assert forall|k: int| 0 <= k < r.len() implies (#[trigger] r[k]).0
                < n.dev.numeric_id by {
                assert(r.to_multiset().count(r[k]) > 0);
                if tree_devices(pre.right).to_multiset().count(r[k]) > 0 {
                    assert(tree_devices(pre.right).contains(r[k]));
                    let k2 = choose|k2: int|
                        0 <= k2 < tree_devices(pre.right).len() && tree_devices(pre.right)[k2] == r[
                        k];
                    assert(tree_devices(pre.right)[k2].0 < pre.dev.numeric_id);
                } else {
                    assert(r[k] == dev_view(device));
                }
            }
        }
        assert((l + mid + r).to_multiset() == l.to_multiset().add(mid.to_multiset()).add(
            r.to_multiset(),
        )) by {
            assert((l + mid).to_multiset() == l.to_multiset().add(mid.to_multiset()));
        }
        assert((tree_devices(pre.left) + mid + tree_devices(pre.right)).to_multiset()
            == tree_devices(pre.left).to_multiset().add(mid.to_multiset()).add(
            tree_devices(pre.right).to_multiset(),
        )) by {
            assert((tree_devices(pre.left) + mid).to_multiset() == tree_devices(
                pre.left,
            ).to_multiset().add(mid.to_multiset()));
        }
        assert(tree_devices(Some(Box::new(n))).to_multiset() =~= tree_devices(
            Some(Box::new(pre)),
        ).to_multiset().insert(dev_view(device)));
    }

    /// Looks a device up by its numeric id: a device with that id comes back
    /// exactly when one was registered under it.
    pub fn find(&self, numeric_id: u64) -> (result: Option<IotDevice>)
        requires
            self.wf(),
        ensures
            match result {
                Some(d) => d.numeric_id == numeric_id && self.devices().contains(dev_view(d)),
                None => forall|k: int|
                    0 <= k < self.devices().len() ==> (#[trigger] self.devices()[k]).0
                        != numeric_id,
            },
    {
        Self::find_rec(&self.root, numeric_id)
    }

    /// The descent: equal id stops, larger-or-equal target goes left, smaller
    /// goes right.
    fn find_rec(node: &Option<Box<Node>>, numeric_id: u64) -> (result: Option<IotDevice>)
        requires
            tree_wf(*node),
        ensures
            match result {
                Some(d) => d.numeric_id == numeric_id && tree_devices(*node).contains(dev_view(d)),
                None => forall|k: int|
                    0 <= k < tree_devices(*node).len() ==> (#[trigger] tree_devices(*node)[k]).0
                        != numeric_id,
            },
        decreases *node,
    {
        match node {
            Some(n) => {
                let ghost l = tree_devices(n.left);
                let ghost r = tree_devices(n.right);
                let ghost mid = seq![dev_view(n.dev)];
                proof {
                    assert(tree_devices(*node) == l + mid + r);
                }
                if n.dev.numeric_id == numeric_id {
                    let d = n.dev.duplicate();
                    proof {
                        assert(tree_devices(*node)[l.len() as int] == dev_view(n.dev));
                    }
                    Some(d)
                } else if n.dev.numeric_id <= numeric_id {
                    let result = Self::find_rec(&n.left, numeric_id);
                    proof {
                        if result is Some {
                            let d = result.unwrap();
                            let k = choose|k: int| 0 <= k < l.len() && l[k] == dev_view(d);
                            assert(tree_devices(*node)[k] == dev_view(d));
                        } else {
                            {
                                assert forall|k: int|
                                    0 <= k < tree_devices(*node).len() implies (#[trigger] tree_devices(
                                    *node,
                                )[k]).0 != numeric_id by {
                                    if k < l.len() {
                                        assert(tree_devices(*node)[k] == l[k]);
                                    } else if k == l.len() {
                                        assert(tree_devices(*node)[k] == dev_view(n.dev));
                                    } else {
                                        assert(tree_devices(*node)[k] == r[k - l.len() - 1]);
                                        assert(r[k - l.len() - 1].0 < n.dev.numeric_id);
                                    }
                                }
                            }
                        }
                    }
                    result
                } else {
                    let result = Self::find_rec(&n.right, numeric_id);
                    proof {
                        if result is Some {
                            let d = result.unwrap();
                            let k = choose|k: int| 0 <= k < r.len() && r[k] == dev_view(d);
                            assert(tree_devices(*node)[l.len() + 1 + k] == dev_view(d));
                        } else {
                            {
                                assert forall|k: int|
                                    0 <= k < tree_devices(*node).len() implies (#[trigger] tree_devices(
                                    *node,
                                )[k]).0 != numeric_id by {
                                    if k < l.len() {
                                        assert(tree_devices(*node)[k] == l[k]);
                                        assert(l[k].0 >= n.dev.numeric_id);
                                    } else if k == l.len() {
                                        assert(tree_devices(*node)[k] == dev_view(n.dev));
                                    } else {
                                        assert(tree_devices(*node)[k] == r[k - l.len() - 1]);
                                    }
                                }
                            }
                        }
                    }
                    result
                }
            },
            None => None,
        }
    }

    /// Hands the registered devices out in tree order: non-increasing by id.
    pub fn walk(&self) -> (devices: Vec<IotDevice>)
        requires
            self.wf(),
        ensures
            devs_view(devices@) == self.devices(),
    {
        let mut out: Vec<IotDevice> = Vec::new();
        proof {
            assert(devs_view(out@) =~~= Seq::<(u64, Seq<char>, Seq<char>)>::empty());
        }
        Self::walk_in_order(&self.root, &mut out);
        proof {
            assert(devs_view(out@) =~~= self.devices());
        }
        out
    }

    /// In-order traversal: left subtree, node, right subtree.
    fn walk_in_order(node: &Option<Box<Node>>, out: &mut Vec<IotDevice>)
        ensures
            devs_view(final(out)@) == devs_view(old(out)@) + tree_devices(*node),
        decreases *node,
    {
        match node {
            Some(n) => {
                let ghost start = out@;
                Self::walk_in_order(&n.left, out);
                out.push(n.dev.duplicate());
                proof {
                    assert(devs_view(out@) =~~= devs_view(start) + tree_devices(n.left) + seq![
                        dev_view(n.dev),
                    ]);
                }
                Self::walk_in_order(&n.right, out);
                proof {
                    assert(devs_view(out@) =~~= devs_view(start) + tree_devices(*node));
                }
            },
            None => {
                proof {
                    assert(devs_view(out@) =~~= devs_view(out@) + tree_devices(*node));
                }
            },
        }
    }

    /// The walk order law: ids never increase along the device sequence.
    pub proof fn lemma_walk_descending(self)
        requires
            self.wf(),
        ensures
            forall|i: int, j: int|
                0 <= i < j < self.devices().len() ==> (#[trigger] self.devices()[i]).0 >= (
                #[trigger] self.devices()[j]).0,
    {
        Self::lemma_tree_descending(self.root);
    }

    /// In-order device sequences of ordered trees are non-increasing by id.
    proof fn lemma_tree_descending(t: Option<Box<Node>>)
        requires
            tree_wf(t),
        ensures
            forall|i: int, j: int|
                0 <= i < j < tree_devices(t).len() ==> (#[trigger] tree_devices(t)[i]).0 >= (
                #[trigger] tree_devices(t)[j]).0,
        decreases t,
    {
        match t {
            None => {},
            Some(n) => {
                Self::lemma_tree_descending(n.left);
                Self::lemma_tree_descending(n.right);
                let l = tree_devices(n.left);
                let r = tree_devices(n.right);
                let whole = tree_devices(t);
                assert(whole == l + seq![dev_view(n.dev)] + r);
                assert forall|i: int, j: int|
                    0 <= i < j < whole.len() implies (#[trigger] whole[i]).0 >= (
                #[trigger] whole[j]).0 by {
                    if i < l.len() {
                        assert(whole[i] == l[i]);
                        assert(l[i].0 >= n.dev.numeric_id);
                    } else if i == l.len() {
                        assert(whole[i] == dev_view(n.dev));
                    } else {
                        assert(whole[i] == r[i - l.len() - 1]);
                    }
                    if j < l.len() {
                        assert(whole[j] == l[j]);
                    } else if j == l.len() {
                        assert(whole[j] == dev_view(n.dev));
                    } else {
                        assert(whole[j] == r[j - l.len() - 1]);
                        assert(r[j - l.len() - 1].0 < n.dev.numeric_id);
                    }
                }
            },
        }
    }
}

} // verus!
