//! Document-wide string interner: a bijection between dense `u32` ids and strings.
use vstd::prelude::*;

verus! {

#[verifier::external_type_specification]
#[verifier::external_body]
#[verifier::reject_recursive_types(L)]
#[verifier::reject_recursive_types(R)]
#[verifier::reject_recursive_types(LS)]
#[verifier::reject_recursive_types(RS)]
pub struct ExBiHashMap<L, R, LS, RS>(bimap::BiHashMap<L, R, LS, RS>);

/// The bimap that holds the interned strings.
pub type IdStrings = bimap::BiHashMap<u32, String>;

/// The left-to-right pairs that a bimap holds, strings taken by their characters.
pub uninterp spec fn bimap_pairs(m: IdStrings) -> Map<u32, Seq<char>>;

/// Relies on bimap::BiHashMap::new: the new bimap holds no pair.
#[verifier::external_body]
fn bimap_new() -> (r: IdStrings)
    ensures
        forall|k: u32| !#[trigger] bimap_pairs(r).contains_key(k),
{
    bimap::BiHashMap::new()
}

/// Relies on bimap::BiHashMap::get_by_left: the right value paired with `id`, if any.
#[verifier::external_body]
fn bimap_get_by_left(m: &IdStrings, id: u32) -> (r: Option<&String>)
    ensures
        match r {
            Some(s) => bimap_pairs(*m).contains_key(id) && bimap_pairs(*m)[id] == s@,
            None => !bimap_pairs(*m).contains_key(id),
        },
{
    m.get_by_left(&id)
}

/// Relies on bimap::BiHashMap::get_by_right: the left value paired with `s`, if any.
#[verifier::external_body]
fn bimap_get_by_right(m: &IdStrings, s: &str) -> (r: Option<u32>)
    ensures
        match r {
            Some(id) => bimap_pairs(*m).contains_key(id) && bimap_pairs(*m)[id] == s@,
            None => forall|k: u32| #[trigger]
                bimap_pairs(*m).contains_key(k) ==> bimap_pairs(*m)[k] != s@,
        },
{
    m.get_by_right(s).copied()
}

/// Relies on bimap::BiHashMap::insert: the pairs that held `id` on the left or `s`
/// on the right are removed, then the pair (`id`, `s`) is added.
#[verifier::external_body]
fn bimap_insert(m: &mut IdStrings, id: u32, s: String)
    ensures
        forall|k: u32| #[trigger]
            bimap_pairs(*final(m)).contains_key(k) <==> (k == id || (bimap_pairs(
                *old(m),
            ).contains_key(k) && bimap_pairs(*old(m))[k] != s@)),
        bimap_pairs(*final(m))[id] == s@,
        forall|k: u32|
            k != id && #[trigger] bimap_pairs(*final(m)).contains_key(k) ==> bimap_pairs(
                *final(m),
            )[k] == bimap_pairs(*old(m))[k],
{
    m.insert(id, s);
}

/// No two keys of `m` map to the same string.
pub open spec fn injective(m: Map<u32, Seq<char>>) -> bool {
    forall|a: u32, b: u32|
        #[trigger] m.contains_key(a) && #[trigger] m.contains_key(b) && a != b ==> m[a] != m[b]
}

/// Bidirectional mapping between densely assigned ids and strings.
pub struct StringTable {
    strings: IdStrings,
    curr_id: u32,
}

impl StringTable {
    /// The id-to-string mapping.
    pub closed spec fn view(&self) -> Map<u32, Seq<char>> {
        bimap_pairs(self.strings)
    }

    /// The id that the next new string receives.
    pub closed spec fn next(&self) -> u32 {
        self.curr_id
    }

    /// Ids are exactly `0..next`, and no two ids share a string.
    pub open spec fn wf(&self) -> bool {
        &&& forall|k: u32| #[trigger] self@.contains_key(k) <==> k < self.next()
        &&& forall|a: u32, b: u32|
            #[trigger] self@.contains_key(a) && #[trigger] self@.contains_key(b) && a != b
                ==> self@[a] != self@[b]
    }

    pub fn new() -> (r: StringTable)
        ensures
            r.wf(),
            r@ == Map::<u32, Seq<char>>::empty(),
            r.next() == 0,
    {
        StringTable { strings: bimap_new(), curr_id: 0 }
    }

    /// A well-formed table holds exactly `next()` strings.
    pub proof fn lemma_len_is_next(&self)
        requires
            self.wf(),
        ensures
            self@.dom().finite(),
            self@.dom().len() == self.next(),
    {
        lemma_below_len(self.next());
        assert(self@.dom() =~= Set::new(|k: u32| k < self.next()));
    }

    /// A well-formed table never gives one string two ids.
    pub proof fn lemma_injective(&self)
        requires
            self.wf(),
        ensures
            injective(self@),
    {
    }

    /// The id that the next new string receives.
    pub fn next_id(&self) -> (r: u32)
        ensures
            r == self.next(),
    {
        self.curr_id
    }

    /// Returns the id of `s`, assigning the next free id if `s` is new.
    pub fn insert(&mut self, s: String) -> (r: u32)
        requires
            old(self).wf(),
            old(self).next() < u32::MAX,
        ensures
            final(self).wf(),
            final(self)@.contains_key(r),
            final(self)@[r] == s@,
            old(self)@.contains_key(r) ==> final(self)@ == old(self)@ && final(self).next() == old(
                self,
            ).next(),
            !old(self)@.contains_key(r) ==> r == old(self)@.dom().len() && r == old(self).next()
                && final(self).next() == r + 1
                && final(self)@ == old(self)@.insert(r, s@),
            old(self)@.contains_key(r) <==> exists|k: u32|
                #[trigger] old(self)@.contains_key(k) && old(self)@[k] == s@,
    {
        if let Some(k) = bimap_get_by_right(&self.strings, s.as_str()) {
            return k;
        }
        proof {
            self.lemma_len_is_next();
        }
        let id = self.curr_id;
        let ghost before = self@;
        bimap_insert(&mut self.strings, id, s);
        self.curr_id = id + 1;
        assert(self@ =~= before.insert(id, self@[id]));
        id
    }

    /// The id of `s`, if it was interned.
    pub fn lookup_idx(&self, s: &str) -> (r: Option<u32>)
        requires
            self.wf(),
        ensures
            match r {
                Some(id) => self@.contains_key(id) && self@[id] == s@,
                None => forall|k: u32| #[trigger] self@.contains_key(k) ==> self@[k] != s@,
            },
    {
        bimap_get_by_right(&self.strings, s)
    }

    /// The string with id `id`, if any.
    pub fn get(&self, id: u32) -> (r: Option<&String>)
        ensures
            match r {
                Some(s) => self@.contains_key(id) && self@[id] == s@,
                None => !self@.contains_key(id),
            },
    {
        bimap_get_by_left(&self.strings, id)
    }
}

proof fn lemma_below_len(n: u32)
    ensures
        Set::new(|k: u32| k < n).finite(),
        Set::new(|k: u32| k < n).len() == n,
    decreases n,
{
    if n == 0 {
        assert(Set::new(|k: u32| k < n) =~= Set::<u32>::empty());
    } else {
        let m = (n - 1) as u32;
        lemma_below_len(m);
        assert(Set::new(|k: u32| k < n) =~= Set::new(|k: u32| k < m).insert(m));
    }
}

/// Two different strings of a well-formed table have different ids.
pub proof fn lemma_distinct_strings_distinct_ids(t: StringTable, a: u32, b: u32)
    requires
        t.wf(),
        t@.contains_key(a),
        t@.contains_key(b),
        t@[a] != t@[b],
    ensures
        a != b,
{
}

/// A string has one id only: inserting it again yields the id it already has.
pub proof fn lemma_one_id_per_string(t: StringTable, s: Seq<char>, a: u32, b: u32)
    requires
        t.wf(),
        t@.contains_key(a),
        t@.contains_key(b),
        t@[a] == s,
        t@[b] == s,
    ensures
        a == b,
{
}

/// Looking up the string of an id, then the id of that string, gives the id back:
/// no other id holds that string.
pub proof fn lemma_lookups_inverse(t: StringTable, id: u32)
    requires
        t.wf(),
        t@.contains_key(id),
    ensures
        forall|k: u32| #[trigger] t@.contains_key(k) && t@[k] == t@[id] ==> k == id,
{
}

} // verus!
