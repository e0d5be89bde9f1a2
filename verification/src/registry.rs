//! Registry of node names: a dense identity for every registered name,
//! together with the kind of the node.

use vstd::prelude::*;

verus! {

/// What a named node stands for.
#[derive(Clone, Copy, Debug, PartialEq, Eq)]
pub enum NodeKind {
    User,
    Beacon,
    Comment,
    Opinion,
}

/// Identity and kind of one registered name.
#[derive(Clone, Debug)]
pub struct NodeInfo {
    pub id: usize,
    pub kind: NodeKind,
}

/// Bidirectional map between names and dense identities.
#[derive(Clone)]
pub struct NodeRegistry {
    pub name_to_info: Vec<(String, NodeInfo)>,
    pub id_to_name: Vec<String>,
    pub next_id: usize,
}

impl NodeRegistry {
    pub open spec fn wf(self) -> bool {
        &&& self.next_id == self.id_to_name@.len()
        &&& self.name_to_info@.len() == self.id_to_name@.len()
        &&& forall|i: int| 0 <= i < self.name_to_info@.len()
            ==> (#[trigger] self.name_to_info@[i]).1.id < self.id_to_name@.len()
                && self.id_to_name@[self.name_to_info@[i].1.id as int]@
                    == self.name_to_info@[i].0@
        &&& forall|i: int, j: int| 0 <= i < self.name_to_info@.len()
            && 0 <= j < self.name_to_info@.len() && i != j
            ==> (#[trigger] self.name_to_info@[i]).0@
                != (#[trigger] self.name_to_info@[j]).0@
        &&& forall|i: int, j: int| 0 <= i < self.name_to_info@.len()
            && 0 <= j < self.name_to_info@.len() && i != j
            ==> (#[trigger] self.name_to_info@[i]).1.id
                != (#[trigger] self.name_to_info@[j]).1.id
    }

    /// Whether `nm` is registered.
    pub open spec fn has_name(self, nm: Seq<char>) -> bool {
        exists|i: int| 0 <= i < self.name_to_info@.len()
            && (#[trigger] self.name_to_info@[i]).0@ == nm
    }

    /// The entry of a registered name.
    pub open spec fn info_of(self, nm: Seq<char>) -> NodeInfo {
        let i = choose|i: int| 0 <= i < self.name_to_info@.len()
            && (#[trigger] self.name_to_info@[i]).0@ == nm;
        self.name_to_info@[i].1
    }

    pub fn new() -> (r: Self)
        ensures
            r.wf(),
            r.name_to_info@.len() == 0,
            r.next_id == 0,
    {
        NodeRegistry { name_to_info: Vec::new(), id_to_name: Vec::new(), next_id: 0 }
    }

    /// Index of the entry for `nm`, scanning by name.
    fn find(&self, name: &String) -> (r: Option<usize>)
        requires
            self.wf(),
        ensures
            match r {
                Some(i) => i < self.name_to_info@.len()
                    && self.name_to_info@[i as int].0@ == name@
                    && self.has_name(name@)
                    && self.info_of(name@) == self.name_to_info@[i as int].1,
                None => !self.has_name(name@),
            },
    {
        let n = self.name_to_info.len();
        let mut i: usize = 0;
        while i < n
            invariant
                self.wf(),
                n == self.name_to_info@.len(),
                i <= n,
                forall|j: int| 0 <= j < i
                    ==> (#[trigger] self.name_to_info@[j]).0@ != name@,
            decreases n - i,
        {
            if self.name_to_info[i].0 == *name {
                proof {
                    let w = choose|w: int| 0 <= w < self.name_to_info@.len()
                        && (#[trigger] self.name_to_info@[w]).0@ == name@;
                    assert(w == i);
                }
                return Some(i);
            }
            i = i + 1;
        }
        None
    }

    /// Register `name` under a fresh identity, or hand back the identity it
    /// already has.
    pub fn register(&mut self, name: String, kind: NodeKind) -> (r: usize)
        requires
            old(self).wf(),
            old(self).id_to_name@.len() < usize::MAX,
        ensures
            final(self).wf(),
            old(self).has_name(name@) ==> *final(self) == *old(self)
                && r == old(self).info_of(name@).id,
            !old(self).has_name(name@) ==> {
                &&& r == old(self).next_id
                &&& final(self).next_id == old(self).next_id + 1
                &&& final(self).has_name(name@)
                &&& final(self).info_of(name@).id == r
                &&& final(self).info_of(name@).kind == kind
                &&& final(self).id_to_name@.len() == old(self).id_to_name@.len() + 1
                &&& final(self).id_to_name@[old(self).id_to_name@.len() as int]@
                    == name@
                &&& forall|i: int| 0 <= i < old(self).id_to_name@.len()
                    ==> final(self).id_to_name@[i] == old(self).id_to_name@[i]
                &&& forall|nm: Seq<char>| nm != name@
                    ==> final(self).has_name(nm) == old(self).has_name(nm)
            },
    {
        match self.find(&name) {
            Some(i) => self.name_to_info[i].1.id,
            None => {
                let ghost pre = *self;
                proof {
                    assert(pre == *old(self));
                }
                let id = self.next_id;
                self.next_id = self.next_id + 1;
                let info = NodeInfo { id, kind };
                let name2 = name.clone();
                self.name_to_info.push((name, info));
                self.id_to_name.push(name2);
                proof {
                    let n = pre.name_to_info@.len() as int;
                    assert(name2@ == name@);
                    assert(self.name_to_info@[n].0@ == name@);
                    assert(self.has_name(name@));
                    assert forall|i: int| 0 <= i < self.name_to_info@.len()
                        implies (#[trigger] self.name_to_info@[i]).1.id
                            < self.id_to_name@.len()
                            && self.id_to_name@[self.name_to_info@[i].1.id as int]@
                                == self.name_to_info@[i].0@ by {
                        if i < n {
                            assert(self.name_to_info@[i] == pre.name_to_info@[i]);
                            assert(self.id_to_name@[pre.name_to_info@[i].1.id as int]
                                == pre.id_to_name@[pre.name_to_info@[i].1.id as int]);
                        }
                    }
                    assert(self.wf());
                    let w = choose|w: int| 0 <= w < self.name_to_info@.len()
                        && (#[trigger] self.name_to_info@[w]).0@ == name@;
                    if w != n {
                        assert(pre.name_to_info@[w].0@ == name@);
                        assert(pre.has_name(name@));
                        assert(false);
                    }
                    assert(w == n);
                    assert(self.info_of(name@).id == id);
                    assert(self.info_of(name@).kind == kind);
                    assert(self.id_to_name@[pre.id_to_name@.len() as int]@ == name@);
                    assert forall|nm: Seq<char>| nm != name@
                        implies self.has_name(nm) == pre.has_name(nm) by {
                        if self.has_name(nm) {
                            let v = choose|v: int| 0 <= v < self.name_to_info@.len()
                                && (#[trigger] self.name_to_info@[v]).0@ == nm;
                            assert(v != n);
                            assert(pre.name_to_info@[v].0@ == nm);
                        }
                        if pre.has_name(nm) {
                            let v = choose|v: int| 0 <= v < pre.name_to_info@.len()
                                && (#[trigger] pre.name_to_info@[v]).0@ == nm;
                            assert(self.name_to_info@[v].0@ == nm);
                        }
                    }
                }
                id
            },
        }
    }

    pub fn get_id(&self, name: &str) -> (r: Option<usize>)
        requires
            self.wf(),
        ensures
            match r {
                Some(id) => self.has_name(name@) && id == self.info_of(name@).id,
                None => !self.has_name(name@),
            },
    {
        let owned = name.to_owned();
        match self.find(&owned) {
            Some(i) => Some(self.name_to_info[i].1.id),
            None => None,
        }
    }

    pub fn get_name(&self, id: usize) -> (r: Option<&str>)
        requires
            self.wf(),
        ensures
            match r {
                Some(s) => id < self.id_to_name@.len() && s@ == self.id_to_name@[id as int]@,
                None => id >= self.id_to_name@.len(),
            },
    {
        if id < self.id_to_name.len() {
            Some(self.id_to_name[id].as_str())
        } else {
            None
        }
    }

    pub fn get_kind(&self, name: &str) -> (r: Option<NodeKind>)
        requires
            self.wf(),
        ensures
            match r {
                Some(k) => self.has_name(name@) && k == self.info_of(name@).kind,
                None => !self.has_name(name@),
            },
    {
        let owned = name.to_owned();
        match self.find(&owned) {
            Some(i) => Some(self.name_to_info[i].1.kind),
            None => None,
        }
    }

    /// The kind of the node whose identity is `id`.
    pub fn get_kind_by_id(&self, id: usize) -> (r: Option<NodeKind>)
        requires
            self.wf(),
        ensures
            r.is_some() == (id < self.id_to_name@.len()
                && self.has_name(self.id_to_name@[id as int]@)),
            r.is_some() ==> r.unwrap()
                == self.info_of(self.id_to_name@[id as int]@).kind,
    {
        match self.get_name(id) {
            Some(name) => {
                let owned = name.to_owned();
                match self.find(&owned) {
                    Some(i) => Some(self.name_to_info[i].1.kind),
                    None => None,
                }
            },
            None => None,
        }
    }

    pub fn len(&self) -> (r: usize)
        ensures
            r == self.id_to_name@.len(),
    {
        self.id_to_name.len()
    }

    pub fn is_empty(&self) -> (r: bool)
        ensures
            r == (self.id_to_name@.len() == 0),
    {
        self.id_to_name.is_empty()
    }
}

} // verus!
