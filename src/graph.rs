//! The geographic graph: nodes, ways and relations keyed by id, with the
//! document-wide interner their tags and roles refer to.
use std::collections::HashMap;
use vstd::prelude::*;

use crate::interner::StringTable;

verus! {

broadcast use vstd::std_specs::hash::group_hash_axioms;

/// An entity with its id, its interned tags (key id to value id) and its payload.
pub struct OsmElement<T> {
    pub id: i64,
    pub tags: HashMap<u32, u32>,
    pub el: T,
}

/// Fixed-point coordinates in units of 1e-7 degree.
pub struct OsmNodeData {
    pub lat: i64,
    pub lon: i64,
}

/// The node ids of a way, in order.
pub struct OsmWayData {
    pub refs: Vec<i64>,
}

/// The target of a relation member and the interned id of its role.
pub struct OsmRelationMemberInfo {
    pub ref_id: i64,
    pub role_sid: u32,
}

#[derive(PartialEq, Eq, Structural, Clone, Copy, Debug)]
pub enum OsmRelationMemberType {
    Node,
    Way,
    Relation,
}

/// The members of a relation, in order.
pub struct OsmRelationData {
    pub members: Vec<(OsmRelationMemberType, OsmRelationMemberInfo)>,
}

/// Entities of one kind keyed by id, with the ids in order of first insertion.
pub struct ElementStore<T> {
    map: HashMap<i64, OsmElement<T>>,
    order: Vec<i64>,
}

impl<T> ElementStore<T> {
    pub closed spec fn view(&self) -> Map<i64, OsmElement<T>> {
        self.map@
    }

    /// The ids in order of first insertion.
    pub closed spec fn ids(&self) -> Seq<i64> {
        self.order@
    }

    /// The id list holds each stored id exactly once, and each entity is stored
    /// under its own id.
    pub open spec fn wf(&self) -> bool {
        &&& self.ids().no_duplicates()
        &&& forall|k: i64| #[trigger] self@.contains_key(k) <==> self.ids().contains(k)
        &&& forall|k: i64| #[trigger] self@.contains_key(k) ==> self@[k].id == k
    }

    pub fn new() -> (r: Self)
        ensures
            r.wf(),
            r@ == Map::<i64, OsmElement<T>>::empty(),
            r.ids() == Seq::<i64>::empty(),
    {
        let r = ElementStore { map: HashMap::new(), order: Vec::new() };
        assert(r.map@ =~= Map::<i64, OsmElement<T>>::empty());
        r
    }

    /// Stores `e` under its id, replacing an earlier entity with that id.
    pub fn put(&mut self, e: OsmElement<T>)
        requires
            old(self).wf(),
        ensures
            final(self).wf(),
            final(self)@ == old(self)@.insert(e.id, e),
            old(self)@.contains_key(e.id) ==> final(self).ids() == old(self).ids(),
            !old(self)@.contains_key(e.id) ==> final(self).ids() == old(self).ids().push(e.id),
    {
        assert(old(self)@ == old(self).map@ && old(self).ids() == old(self).order@);
        let id = e.id;
        if !self.map.contains_key(&id) {
            self.order.push(id);
            assert(self.ids().no_duplicates()) by {
                assert(!old(self).ids().contains(id));
            }
        }
        self.map.insert(id, e);
        assert forall|k: i64| #[trigger] self@.contains_key(k) <==> self.ids().contains(k) by {
            if k != id && self.ids().contains(k) {
                if !old(self)@.contains_key(id) {
                    let j = choose|j: int| 0 <= j < self.ids().len() && self.ids()[j] == k;
                    assert(j < old(self).ids().len());
                    assert(old(self).ids()[j] == k);
                }
            }
            if old(self).ids().contains(k) {
                let j = choose|j: int| 0 <= j < old(self).ids().len() && old(self).ids()[j] == k;
                assert(self.ids()[j] == k);
            }
            if k == id {
                if old(self)@.contains_key(id) {
                    assert(old(self).ids().contains(k));
                } else {
                    assert(self.ids()[self.ids().len() - 1] == id);
                }
            }
        }
    }

    /// The entity with id `id`, if any.
    pub fn get(&self, id: i64) -> (r: Option<&OsmElement<T>>)
        ensures
            match r {
                Some(e) => self@.contains_key(id) && *e == self@[id],
                None => !self@.contains_key(id),
            },
    {
        self.map.get(&id)
    }

    /// The ids in order of first insertion.
    pub fn id_list(&self) -> (r: &Vec<i64>)
        ensures
            r@ == self.ids(),
    {
        &self.order
    }

    pub fn len(&self) -> (r: usize)
        ensures
            r == self.ids().len(),
    {
        self.order.len()
    }
}

/// Every id that `tags` mentions, as key or value, is interned in `st`.
pub open spec fn tags_interned(tags: Map<u32, u32>, st: Map<u32, Seq<char>>) -> bool {
    forall|k: u32| #[trigger]
        tags.contains_key(k) ==> st.contains_key(k) && st.contains_key(tags[k])
}

/// Every role id of `members` is interned in `st`.
pub open spec fn roles_interned(
    members: Seq<(OsmRelationMemberType, OsmRelationMemberInfo)>,
    st: Map<u32, Seq<char>>,
) -> bool {
    forall|i: int| 0 <= i < members.len() ==> st.contains_key(#[trigger] members[i].1.role_sid)
}

/// The value of tag `key` in `tags`, read through interner `st`.
pub open spec fn tag_value(st: Map<u32, Seq<char>>, tags: Map<u32, u32>, key: Seq<char>) -> Option<
    Seq<char>,
> {
    if exists|k: u32| #[trigger] st.contains_key(k) && st[k] == key && tags.contains_key(k) {
        let k = choose|k: u32| #[trigger] st.contains_key(k) && st[k] == key && tags.contains_key(k);
        Some(st[tags[k]])
    } else {
        None
    }
}

/// The decoded document: its header block bytes, its entities and its interner.
pub struct OsmFile {
    pub header: Vec<u8>,
    pub string_table: StringTable,
    pub nodes: ElementStore<OsmNodeData>,
    pub ways: ElementStore<OsmWayData>,
    pub relations: ElementStore<OsmRelationData>,
}

impl OsmFile {
    pub open spec fn wf(&self) -> bool {
        &&& self.string_table.wf()
        &&& self.nodes.wf()
        &&& self.ways.wf()
        &&& self.relations.wf()
        &&& forall|k: i64| #[trigger]
            self.nodes@.contains_key(k) ==> tags_interned(self.nodes@[k].tags@, self.string_table@)
        &&& forall|k: i64| #[trigger]
            self.ways@.contains_key(k) ==> tags_interned(self.ways@[k].tags@, self.string_table@)
        &&& forall|k: i64| #[trigger]
            self.relations@.contains_key(k) ==> tags_interned(
                self.relations@[k].tags@,
                self.string_table@,
            ) && roles_interned(self.relations@[k].el.members@, self.string_table@)
    }

    pub fn new() -> (r: OsmFile)
        ensures
            r.wf(),
            r.string_table@ == Map::<u32, Seq<char>>::empty(),
            r.nodes@ == Map::<i64, OsmElement<OsmNodeData>>::empty(),
            r.ways@ == Map::<i64, OsmElement<OsmWayData>>::empty(),
            r.relations@ == Map::<i64, OsmElement<OsmRelationData>>::empty(),
    {
        OsmFile {
            header: Vec::new(),
            string_table: StringTable::new(),
            nodes: ElementStore::new(),
            ways: ElementStore::new(),
            relations: ElementStore::new(),
        }
    }

    pub fn get_string(&self, id: u32) -> (r: Option<&String>)
        ensures
            match r {
                Some(s) => self.string_table@.contains_key(id) && self.string_table@[id] == s@,
                None => !self.string_table@.contains_key(id),
            },
    {
        self.string_table.get(id)
    }

    pub fn get_string_idx(&self, s: &str) -> (r: Option<u32>)
        requires
            self.wf(),
        ensures
            match r {
                Some(id) => self.string_table@.contains_key(id) && self.string_table@[id] == s@,
                None => forall|k: u32| #[trigger]
                    self.string_table@.contains_key(k) ==> self.string_table@[k] != s@,
            },
    {
        self.string_table.lookup_idx(s)
    }

    /// The value of tag `key` among the interned tags `tags`.
    pub fn get_tag_value(&self, tags: &HashMap<u32, u32>, key: &str) -> (r: Option<&String>)
        requires
            self.wf(),
            tags_interned(tags@, self.string_table@),
        ensures
            match r {
                Some(v) => tag_value(self.string_table@, tags@, key@) == Some(v@),
                None => tag_value(self.string_table@, tags@, key@) is None,
            },
    {
        proof {
            self.string_table.lemma_injective();
        }
        let ghost st = self.string_table@;
        match self.string_table.lookup_idx(key) {
            None => None,
            Some(kid) => match tags.get(&kid) {
                None => {
                    assert(!(exists|k: u32| #[trigger] st.contains_key(k) && st[k] == key@ && tags@.contains_key(k)));
                    None
                },
                Some(vid) => {
                    let r = self.string_table.get(*vid);
                    let ghost k = choose|k: u32| #[trigger] st.contains_key(k) && st[k] == key@ && tags@.contains_key(k);
                    assert(k == kid);
                    r
                },
            },
        }
    }

    /// The `name` tag of the node with id `id`, else of the way, else of the relation;
    /// empty when the first entity found has no name or none is found.
    pub fn get_el_name(&self, id: i64) -> (r: String)
        requires
            self.wf(),
        ensures
            r@ == (if self.nodes@.contains_key(id) {
                tag_value(self.string_table@, self.nodes@[id].tags@, "name"@)
            } else if self.ways@.contains_key(id) {
                tag_value(self.string_table@, self.ways@[id].tags@, "name"@)
            } else if self.relations@.contains_key(id) {
                tag_value(self.string_table@, self.relations@[id].tags@, "name"@)
            } else {
                None
            }).unwrap_or(Seq::empty()),
    {
        let found = if let Some(n) = self.get_node(id) {
            self.get_tag_value(&n.tags, "name")
        } else if let Some(w) = self.get_way(id) {
            self.get_tag_value(&w.tags, "name")
        } else if let Some(rel) = self.get_relation(id) {
            self.get_tag_value(&rel.tags, "name")
        } else {
            None
        };
        match found {
            Some(v) => v.clone(),
            None => String::new(),
        }
    }

    pub fn get_node(&self, id: i64) -> (r: Option<&OsmElement<OsmNodeData>>)
        ensures
            match r {
                Some(e) => self.nodes@.contains_key(id) && *e == self.nodes@[id],
                None => !self.nodes@.contains_key(id),
            },
    {
        self.nodes.get(id)
    }

    pub fn get_way(&self, id: i64) -> (r: Option<&OsmElement<OsmWayData>>)
        ensures
            match r {
                Some(e) => self.ways@.contains_key(id) && *e == self.ways@[id],
                None => !self.ways@.contains_key(id),
            },
    {
        self.ways.get(id)
    }

    pub fn get_relation(&self, id: i64) -> (r: Option<&OsmElement<OsmRelationData>>)
        ensures
            match r {
                Some(e) => self.relations@.contains_key(id) && *e == self.relations@[id],
                None => !self.relations@.contains_key(id),
            },
    {
        self.relations.get(id)
    }
}

} // verus!
