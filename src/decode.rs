//! Reconstruction of entities from the delta- and dictionary-encoded records of a
//! primitive block.
use std::collections::HashMap;
use vstd::prelude::*;
use vstd::string::StringExecFns;

use crate::graph::{
    roles_interned, tags_interned, OsmElement, OsmFile, OsmNodeData, OsmRelationData,
    OsmRelationMemberInfo, OsmRelationMemberType, OsmWayData,
};

verus! {

broadcast use vstd::std_specs::hash::group_hash_axioms;

/// Why a document could not be decoded.
#[derive(PartialEq, Eq, Structural, Clone, Copy, Debug)]
pub enum DecodeError {
    /// A frame's lengths point past the end of the input.
    Truncated,
    /// The blob holds no zlib data.
    UnsupportedCompression,
    /// The zlib data could not be inflated.
    Decompress,
    /// The frame header names a type other than `OSMHeader` and `OSMData`.
    UnknownBlobType,
    /// A protocol message could not be parsed.
    Malformed,
    /// A block string is not valid UTF-8.
    InvalidUtf8,
    /// A string index points past the end of the block's string table.
    BadStringIndex,
    /// Parallel arrays of a record differ in length, or a tag key has no value.
    LengthMismatch,
    /// A running sum left the range of `i64`.
    Overflow,
    /// A relation member has a type code other than 0, 1 and 2.
    UnknownMemberType,
    /// The interner has no id left.
    TooManyStrings,
}

/// The sum of the first `n` deltas.
pub open spec fn prefix_sum(s: Seq<i64>, n: int) -> int
    decreases n,
{
    if n <= 0 {
        0
    } else {
        prefix_sum(s, n - 1) + s[n - 1]
    }
}

/// Every running sum of `s` fits in an `i64`.
pub open spec fn sums_fit(s: Seq<i64>) -> bool {
    forall|n: int| 0 < n <= s.len() ==> i64::MIN <= #[trigger] prefix_sum(s, n) <= i64::MAX
}

/// Turns successive deltas into absolute values: element `i` is the sum of the
/// first `i + 1` deltas. `None` when a running sum leaves the range of `i64`.
pub fn delta_decode(deltas: &Vec<i64>) -> (r: Option<Vec<i64>>)
    ensures
        r is Some <==> sums_fit(deltas@),
        r matches Some(v) ==> v@.len() == deltas@.len() && forall|i: int|
            0 <= i < v@.len() ==> v@[i] == #[trigger] prefix_sum(deltas@, i + 1),
{
    let mut out: Vec<i64> = Vec::new();
    let mut acc: i64 = 0;
    let mut i: usize = 0;
    while i < deltas.len()
        invariant
            i <= deltas@.len(),
            out@.len() == i,
            acc == prefix_sum(deltas@, i as int),
            forall|j: int| 0 <= j < i ==> out@[j] == #[trigger] prefix_sum(deltas@, j + 1),
            forall|n: int| 0 < n <= i ==> i64::MIN <= #[trigger] prefix_sum(deltas@, n) <= i64::MAX,
        decreases deltas@.len() - i,
    {
        let d = deltas[i];
        match acc.checked_add(d) {
            Some(v) => {
                acc = v;
                out.push(v);
                i = i + 1;
            },
            None => {
                assert(!(i64::MIN <= prefix_sum(deltas@, i + 1) <= i64::MAX));
                return None;
            },
        }
    }
    Some(out)
}

/// The tag groups of a dense `keys_vals` array read from position `i`, `cur` being
/// the (key, value) index pairs of the group under way. A 0 key closes a group;
/// a group left open at the end is kept when it holds a pair. `None` when a key
/// has no value after it.
pub open spec fn groups_from(kv: Seq<i32>, i: int, cur: Seq<(u32, u32)>) -> Option<
    Seq<Seq<(u32, u32)>>,
>
    decreases kv.len() - i,
{
    if i >= kv.len() {
        if cur.len() == 0 {
            Some(Seq::empty())
        } else {
            Some(seq![cur])
        }
    } else if kv[i] == 0 {
        match groups_from(kv, i + 1, Seq::empty()) {
            Some(rest) => Some(seq![cur] + rest),
            None => None,
        }
    } else if i + 1 >= kv.len() {
        None
    } else {
        groups_from(kv, i + 2, cur.push((kv[i] as u32, kv[i + 1] as u32)))
    }
}

/// The tag groups of a whole dense `keys_vals` array.
pub open spec fn dense_groups(kv: Seq<i32>) -> Option<Seq<Seq<(u32, u32)>>> {
    groups_from(kv, 0, Seq::empty())
}

/// The views of a list of lists.
pub open spec fn views_of<T>(v: Seq<Vec<T>>) -> Seq<Seq<T>> {
    Seq::new(v.len(), |j: int| v[j]@)
}

proof fn lemma_groups_prefix(kv: Seq<i32>, i: int, cur: Seq<(u32, u32)>, done: Seq<Seq<(u32, u32)>>)
    requires
        0 <= i < kv.len(),
        kv[i] == 0,
    ensures
        match groups_from(kv, i + 1, Seq::empty()) {
            Some(rest) => groups_from(kv, i, cur) == Some(seq![cur] + rest) && done + (seq![cur]
                + rest) == done.push(cur) + rest,
            None => groups_from(kv, i, cur) is None,
        },
{
    match groups_from(kv, i + 1, Seq::empty()) {
        Some(rest) => {
            assert(done + (seq![cur] + rest) =~= done.push(cur) + rest);
        },
        None => {},
    }
}

/// Splits a dense `keys_vals` array into tag groups of block-local (key, value)
/// string indices, one group per node.
pub fn split_dense_tags(keys_vals: &Vec<i32>) -> (r: Result<Vec<Vec<(u32, u32)>>, DecodeError>)
    ensures
        match r {
            Ok(groups) => dense_groups(keys_vals@) == Some(views_of(groups@)),
            Err(e) => e == DecodeError::LengthMismatch && dense_groups(keys_vals@) is None,
        },
{
    let ghost kv = keys_vals@;
    let mut res: Vec<Vec<(u32, u32)>> = Vec::new();
    let mut cur: Vec<(u32, u32)> = Vec::new();
    let mut i: usize = 0;
    while i < keys_vals.len()
        invariant
            i <= kv.len(),
            kv == keys_vals@,
            dense_groups(kv) == (match groups_from(kv, i as int, cur@) {
                Some(rest) => Some(views_of(res@) + rest),
                None => None,
            }),
        decreases kv.len() - i,
    {
        let k = keys_vals[i];
        if k == 0 {
            proof {
                lemma_groups_prefix(kv, i as int, cur@, views_of(res@));
            }
            let ghost old_res = res@;
            let ghost old_cur = cur@;
            res.push(cur);
            cur = Vec::new();
            proof {
                assert(views_of(res@) =~= views_of(old_res).push(old_cur));
            }
            i = i + 1;
        } else {
            if i + 1 >= keys_vals.len() {
                return Err(DecodeError::LengthMismatch);
            }
            let v = keys_vals[i + 1];
            cur.push((k as u32, v as u32));
            i = i + 2;
        }
    }
    if cur.len() > 0 {
        let ghost old_res = res@;
        let ghost old_cur = cur@;
        res.push(cur);
        proof {
            assert(views_of(res@) =~= views_of(old_res) + seq![old_cur]);
        }
    } else {
        assert(views_of(res@) + Seq::<Seq<(u32, u32)>>::empty() =~= views_of(res@));
    }
    Ok(res)
}


/// The views of a block's string table.
pub open spec fn strs_of(t: Seq<String>) -> Seq<Seq<char>> {
    Seq::new(t.len(), |i: int| t[i]@)
}

/// Keys and values zipped pairwise, the longer list cut to the shorter.
pub open spec fn zip_pairs(keys: Seq<u32>, vals: Seq<u32>) -> Seq<(u32, u32)> {
    let n = if keys.len() <= vals.len() {
        keys.len()
    } else {
        vals.len()
    };
    Seq::new(n, |i: int| (keys[i], vals[i]))
}

/// Every index of `pairs` points into a table of `n` strings.
pub open spec fn pairs_in_range(pairs: Seq<(u32, u32)>, n: int) -> bool {
    forall|i: int| 0 <= i < pairs.len() ==> (#[trigger] pairs[i]).0 < n && pairs[i].1 < n
}

/// The tags that `pairs` give, as strings: a later pair with the same key wins.
pub open spec fn tag_strs(table: Seq<Seq<char>>, pairs: Seq<(u32, u32)>) -> Map<
    Seq<char>,
    Seq<char>,
>
    decreases pairs.len(),
{
    if pairs.len() == 0 {
        Map::empty()
    } else {
        let p = pairs.last();
        tag_strs(table, pairs.drop_last()).insert(table[p.0 as int], table[p.1 as int])
    }
}

/// The interned tags `tags`, read through `st`, are exactly the string tags `want`.
pub open spec fn tags_match(
    st: Map<u32, Seq<char>>,
    tags: Map<u32, u32>,
    want: Map<Seq<char>, Seq<char>>,
) -> bool {
    &&& forall|k: u32| #[trigger]
        tags.contains_key(k) ==> want.contains_key(st[k]) && want[st[k]] == st[tags[k]]
    &&& forall|s: Seq<char>| #[trigger]
        want.contains_key(s) ==> exists|k: u32| #[trigger] tags.contains_key(k) && st[k] == s
}

/// `new` keeps every id of `old` with its string.
pub open spec fn extends(new: Map<u32, Seq<char>>, old: Map<u32, Seq<char>>) -> bool {
    forall|k: u32| #[trigger] old.contains_key(k) ==> new.contains_key(k) && new[k] == old[k]
}

proof fn lemma_tags_match_extends(
    st: Map<u32, Seq<char>>,
    st2: Map<u32, Seq<char>>,
    tags: Map<u32, u32>,
    want: Map<Seq<char>, Seq<char>>,
)
    requires
        tags_match(st, tags, want),
        tags_interned(tags, st),
        extends(st2, st),
    ensures
        tags_match(st2, tags, want),
        tags_interned(tags, st2),
{
    assert forall|s: Seq<char>| #[trigger] want.contains_key(s) implies exists|k: u32| #[trigger]
        tags.contains_key(k) && st2[k] == s by {
        let k = choose|k: u32| #[trigger] tags.contains_key(k) && st[k] == s;
        assert(tags.contains_key(k) && st2[k] == s);
    }
}

/// `file2` holds the entities of `file`, and its interner extends that of `file`.
pub open spec fn same_entities(file2: OsmFile, file: OsmFile) -> bool {
    &&& file2.nodes == file.nodes
    &&& file2.ways == file.ways
    &&& file2.relations == file.relations
    &&& file2.header == file.header
    &&& extends(file2.string_table@, file.string_table@)
}

proof fn lemma_file_wf_extends(file: OsmFile, file2: OsmFile)
    requires
        file.wf(),
        file2.string_table.wf(),
        file2.nodes == file.nodes,
        file2.ways == file.ways,
        file2.relations == file.relations,
        extends(file2.string_table@, file.string_table@),
    ensures
        file2.wf(),
{
    let st = file.string_table@;
    let st2 = file2.string_table@;
    assert forall|k: i64| #[trigger] file2.relations@.contains_key(k) implies roles_interned(
        file2.relations@[k].el.members@,
        st2,
    ) by {
        let m = file.relations@[k].el.members@;
        assert forall|i: int| 0 <= i < m.len() implies st2.contains_key(#[trigger] m[i].1.role_sid) by {
            assert(st.contains_key(m[i].1.role_sid));
        }
    }
}

/// Every id that `file2` holds and `file` does not names one of the strings `tv`.
pub open spec fn interned_from(file2: OsmFile, file: OsmFile, tv: Seq<Seq<char>>) -> bool {
    forall|k: u32|
        #[trigger] file2.string_table@.contains_key(k) && !file.string_table@.contains_key(k)
            ==> tv.contains(file2.string_table@[k])
}

proof fn lemma_range_len(lo: u32, hi: u32)
    requires
        lo <= hi,
    ensures
        Set::new(|k: u32| lo <= k < hi).finite(),
        Set::new(|k: u32| lo <= k < hi).len() == hi - lo,
    decreases hi - lo,
{
    if lo == hi {
        assert(Set::new(|k: u32| lo <= k < hi) =~= Set::<u32>::empty());
    } else {
        let m = (hi - 1) as u32;
        lemma_range_len(lo, m);
        assert(Set::new(|k: u32| lo <= k < hi) =~= Set::new(|k: u32| lo <= k < m).insert(m));
    }
}

proof fn lemma_interned_trans(f0: OsmFile, f1: OsmFile, f2: OsmFile, tv: Seq<Seq<char>>)
    requires
        interned_from(f1, f0, tv),
        interned_from(f2, f1, tv),
        extends(f2.string_table@, f1.string_table@),
        extends(f1.string_table@, f0.string_table@),
    ensures
        interned_from(f2, f0, tv),
        extends(f2.string_table@, f0.string_table@),
{
    assert forall|k: u32|
        #[trigger] f2.string_table@.contains_key(k) && !f0.string_table@.contains_key(k) implies tv.contains(
            f2.string_table@[k],
        ) by {
        if f1.string_table@.contains_key(k) {
            assert(f2.string_table@[k] == f1.string_table@[k]);
        }
    }
}

/// Ids that only strings of `tv` were given number at most as many as `tv` holds.
pub proof fn lemma_room(file: OsmFile, file2: OsmFile, tv: Seq<Seq<char>>)
    requires
        file.wf(),
        file2.wf(),
        extends(file2.string_table@, file.string_table@),
        interned_from(file2, file, tv),
    ensures
        file2.string_table.next() <= file.string_table.next() + tv.len(),
{
    let lo = file.string_table.next();
    let hi = file2.string_table.next();
    let st = file2.string_table@;
    if hi < lo {
        assert(file.string_table@.contains_key(hi));
    } else {
        file2.string_table.lemma_injective();
        let x = Set::new(|k: u32| lo <= k < hi);
        lemma_range_len(lo, hi);
        let f = |k: u32| st[k];
        assert forall|x1: u32, x2: u32|
            x.contains(x1) && x.contains(x2) && #[trigger] f(x1) == #[trigger] f(x2) implies x1 == x2 by {
            assert(st.contains_key(x1) && st.contains_key(x2));
        }
        assert(vstd::relations::injective_on(f, x));
        vstd::set_lib::lemma_map_size(x, x.map(f), f);
        assert forall|v: Seq<char>| #[trigger] x.map(f).contains(v) implies tv.to_set().contains(v) by {
            let k = choose|k: u32| x.contains(k) && f(k) == v;
            assert(st.contains_key(k) && !file.string_table@.contains_key(k));
        }
        vstd::set_lib::lemma_len_subset(x.map(f), tv.to_set());
        tv.lemma_cardinality_of_set();
    }
}

/// Interns string `idx` of the block table into the document interner.
fn intern_index(file: &mut OsmFile, table: &Vec<String>, idx: u32) -> (r: Result<u32, DecodeError>)
    requires
        old(file).wf(),
    ensures
        final(file).wf(),
        same_entities(*final(file), *old(file)),
        interned_from(*final(file), *old(file), strs_of(table@)),
        match r {
            Ok(id) => idx < table@.len() && final(file).string_table@.contains_key(id)
                && final(file).string_table@[id] == table@[idx as int]@,
            Err(e) => e == DecodeError::BadStringIndex && idx >= table@.len() || e
                == DecodeError::TooManyStrings && final(file).string_table.next() == u32::MAX,
        },
{
    if idx as usize >= table.len() {
        return Err(DecodeError::BadStringIndex);
    }
    if file.string_table.next_id() == u32::MAX {
        return Err(DecodeError::TooManyStrings);
    }
    let ghost before = *file;
    let s = table[idx as usize].clone();
    let id = file.string_table.insert(s);
    proof {
        lemma_file_wf_extends(before, *file);
        assert(strs_of(table@)[idx as int] == table@[idx as int]@);
    }
    Ok(id)
}

/// Interns the strings of `pairs` and returns the tag map of their ids.
fn intern_pairs(file: &mut OsmFile, table: &Vec<String>, pairs: &Vec<(u32, u32)>) -> (r: Result<
    HashMap<u32, u32>,
    DecodeError,
>)
    requires
        old(file).wf(),
    ensures
        final(file).wf(),
        interned_from(*final(file), *old(file), strs_of(table@)),
        same_entities(*final(file), *old(file)),
        match r {
            Ok(m) => pairs_in_range(pairs@, table@.len() as int) && tags_match(
                final(file).string_table@,
                m@,
                tag_strs(strs_of(table@), pairs@),
            ) && tags_interned(m@, final(file).string_table@),
            Err(e) => e == DecodeError::BadStringIndex && !pairs_in_range(
                pairs@,
                table@.len() as int,
            ) || e == DecodeError::TooManyStrings && final(file).string_table.next() == u32::MAX,
        },
{
    let ghost tv = strs_of(table@);
    let mut m: HashMap<u32, u32> = HashMap::new();
    let mut i: usize = 0;
    while i < pairs.len()
        invariant
            interned_from(*file, *old(file), strs_of(table@)),
            i <= pairs@.len(),
            file.wf(),
            same_entities(*file, *old(file)),
            tv == strs_of(table@),
            pairs_in_range(pairs@.take(i as int), table@.len() as int),
            tags_match(file.string_table@, m@, tag_strs(tv, pairs@.take(i as int))),
            tags_interned(m@, file.string_table@),
        decreases pairs@.len() - i,
    {
        let (k, v) = pairs[i];
        let ghost st0 = file.string_table@;
        let kr = intern_index(file, table, k);
        let kid = match kr {
            Ok(x) => x,
            Err(e) => {
                proof {
                    if e == DecodeError::BadStringIndex {
                        assert(!pairs_in_range(pairs@, table@.len() as int)) by {
                            assert(pairs@[i as int].0 >= table@.len());
                        }
                    }
                }
                return Err(e);
            },
        };
        let vr = intern_index(file, table, v);
        let vid = match vr {
            Ok(x) => x,
            Err(e) => {
                proof {
                    if e == DecodeError::BadStringIndex {
                        assert(!pairs_in_range(pairs@, table@.len() as int)) by {
                            assert(pairs@[i as int].1 >= table@.len());
                        }
                    }
                }
                return Err(e);
            },
        };
        let ghost st2 = file.string_table@;
        proof {
            assert(extends(st2, st0));
            lemma_tags_match_extends(st0, st2, m@, tag_strs(tv, pairs@.take(i as int)));
            file.string_table.lemma_injective();
        }
        let ghost m0 = m@;
        m.insert(kid, vid);
        proof {
            let want0 = tag_strs(tv, pairs@.take(i as int));
            let pre = pairs@.take(i + 1);
            assert(pre.drop_last() =~= pairs@.take(i as int));
            assert(pre.last() == (k, v));
            let want = tag_strs(tv, pre);
            assert(want == want0.insert(tv[k as int], tv[v as int]));
            assert(st2[kid] == tv[k as int]);
            assert(st2[vid] == tv[v as int]);
            assert forall|kk: u32| #[trigger] m@.contains_key(kk) implies want.contains_key(st2[kk])
                && want[st2[kk]] == st2[m@[kk]] by {
                if kk != kid {
                    assert(m0.contains_key(kk));
                    assert(st2[kk] != st2[kid]);
                }
            }
            assert forall|s: Seq<char>| #[trigger] want.contains_key(s) implies exists|kk: u32| #[trigger]
                m@.contains_key(kk) && st2[kk] == s by {
                if s == tv[k as int] {
                    assert(m@.contains_key(kid) && st2[kid] == s);
                } else {
                    assert(want0.contains_key(s));
                    let kk = choose|kk: u32| #[trigger] m0.contains_key(kk) && st2[kk] == s;
                    assert(m@.contains_key(kk) && st2[kk] == s);
                }
            }
            assert forall|j: int| 0 <= j < pre.len() implies (#[trigger] pre[j]).0 < table@.len()
                && pre[j].1 < table@.len() by {
                if j < i {
                    assert(pre[j] == pairs@.take(i as int)[j]);
                }
            }
        }
        i = i + 1;
    }
    proof {
        assert(pairs@.take(i as int) =~= pairs@);
    }
    Ok(m)
}

/// Zips two index lists pairwise, the longer cut to the shorter.
pub fn zip_indices(keys: &Vec<u32>, vals: &Vec<u32>) -> (r: Vec<(u32, u32)>)
    ensures
        r@ == zip_pairs(keys@, vals@),
{
    let n = if keys.len() <= vals.len() {
        keys.len()
    } else {
        vals.len()
    };
    let mut r: Vec<(u32, u32)> = Vec::new();
    let mut i: usize = 0;
    while i < n
        invariant
            n <= keys@.len(),
            n <= vals@.len(),
            n == zip_pairs(keys@, vals@).len(),
            i <= n,
            r@ == zip_pairs(keys@, vals@).take(i as int),
        decreases n - i,
    {
        r.push((keys[i], vals[i]));
        i = i + 1;
        assert(r@ =~= zip_pairs(keys@, vals@).take(i as int));
    }
    assert(r@ =~= zip_pairs(keys@, vals@));
    r
}


/// A node record with absolute fields and parallel key/value index lists.
pub struct PbNode {
    pub id: i64,
    pub keys: Vec<u32>,
    pub vals: Vec<u32>,
    pub lat: i64,
    pub lon: i64,
}

/// Dense node records: ids and coordinates as deltas, tags as one flat array.
pub struct PbDenseNodes {
    pub id: Vec<i64>,
    pub lat: Vec<i64>,
    pub lon: Vec<i64>,
    pub keys_vals: Vec<i32>,
}

/// A way record: node ids as deltas.
pub struct PbWay {
    pub id: i64,
    pub keys: Vec<u32>,
    pub vals: Vec<u32>,
    pub refs: Vec<i64>,
}

/// A relation record: members as three parallel lists, member ids as deltas.
pub struct PbRelation {
    pub id: i64,
    pub keys: Vec<u32>,
    pub vals: Vec<u32>,
    pub roles_sid: Vec<i32>,
    pub memids: Vec<i64>,
    pub types: Vec<i32>,
}

/// One group of records of a primitive block.
pub struct PbPrimitiveGroup {
    pub nodes: Vec<PbNode>,
    pub dense: Option<PbDenseNodes>,
    pub ways: Vec<PbWay>,
    pub relations: Vec<PbRelation>,
}

/// A primitive block: its string table and its groups.
pub struct PbPrimitiveBlock {
    pub stringtable: Vec<Vec<u8>>,
    pub primitivegroup: Vec<PbPrimitiveGroup>,
}

/// The position of the last of the first `n` ids equal to `k`, or -1.
pub open spec fn last_idx(ids: Seq<i64>, n: int, k: i64) -> int
    decreases n,
{
    if n <= 0 {
        -1
    } else if ids[n - 1] == k {
        n - 1
    } else {
        last_idx(ids, n - 1, k)
    }
}

/// `new` is `old` after storing, for each of the first `n` ids, the entity built from
/// that record, a later record with the same id replacing an earlier one.
pub open spec fn batch_applied<T>(
    old: Map<i64, OsmElement<T>>,
    new: Map<i64, OsmElement<T>>,
    ids: Seq<i64>,
    n: int,
    built: spec_fn(int, OsmElement<T>) -> bool,
) -> bool {
    &&& forall|k: i64| #[trigger]
        new.contains_key(k) <==> (old.contains_key(k) || last_idx(ids, n, k) >= 0)
    &&& forall|k: i64| #[trigger]
        new.contains_key(k) ==> (if last_idx(ids, n, k) >= 0 {
            built(last_idx(ids, n, k), new[k])
        } else {
            new[k] == old[k]
        })
}

proof fn lemma_batch_step<T>(
    old: Map<i64, OsmElement<T>>,
    mid: Map<i64, OsmElement<T>>,
    ids: Seq<i64>,
    i: int,
    built: spec_fn(int, OsmElement<T>) -> bool,
    e: OsmElement<T>,
)
    requires
        0 <= i < ids.len(),
        batch_applied(old, mid, ids, i, built),
        e.id == ids[i],
        built(i, e),
    ensures
        batch_applied(old, mid.insert(e.id, e), ids, i + 1, built),
{
    let new = mid.insert(e.id, e);
    assert forall|k: i64| #[trigger]
        new.contains_key(k) <==> (old.contains_key(k) || last_idx(ids, i + 1, k) >= 0) by {
        if k != e.id {
            assert(last_idx(ids, i + 1, k) == last_idx(ids, i, k));
        }
    }
    assert forall|k: i64| #[trigger] new.contains_key(k) implies (if last_idx(ids, i + 1, k) >= 0 {
        built(last_idx(ids, i + 1, k), new[k])
    } else {
        new[k] == old[k]
    }) by {
        if k != e.id {
            assert(last_idx(ids, i + 1, k) == last_idx(ids, i, k));
        }
    }
}

/// Entity `e` is node record `n`, its tags read through interner `st`.
pub open spec fn node_built(
    st: Map<u32, Seq<char>>,
    tv: Seq<Seq<char>>,
    n: PbNode,
    e: OsmElement<OsmNodeData>,
) -> bool {
    &&& e.id == n.id
    &&& e.el.lat == n.lat
    &&& e.el.lon == n.lon
    &&& tags_match(st, e.tags@, tag_strs(tv, zip_pairs(n.keys@, n.vals@)))
}

/// Every tag index of every node record points into a table of `len` strings.
pub open spec fn nodes_in_range(nodes: Seq<PbNode>, len: int) -> bool {
    forall|i: int|
        0 <= i < nodes.len() ==> pairs_in_range(
            zip_pairs((#[trigger] nodes[i]).keys@, nodes[i].vals@),
            len,
        )
}

/// The ids of the node records.
pub open spec fn node_ids(nodes: Seq<PbNode>) -> Seq<i64> {
    Seq::new(nodes.len(), |i: int| nodes[i].id)
}

/// Everything of `file2` but its nodes and interner is that of `file`; its interner
/// extends that of `file`.
pub open spec fn only_nodes_changed(file2: OsmFile, file: OsmFile) -> bool {
    &&& file2.ways == file.ways
    &&& file2.relations == file.relations
    &&& file2.header == file.header
    &&& extends(file2.string_table@, file.string_table@)
}

/// Stores the plain node records `nodes`, their tags interned into the document.
pub fn read_osm_nodes(file: &mut OsmFile, table: &Vec<String>, nodes: &Vec<PbNode>) -> (r: Result<
    (),
    DecodeError,
>)
    requires
        old(file).wf(),
    ensures
        final(file).wf(),
        interned_from(*final(file), *old(file), strs_of(table@)),
        r matches Err(e) && e == DecodeError::TooManyStrings ==> old(file).string_table.next()
            + table@.len() >= u32::MAX,
        only_nodes_changed(*final(file), *old(file)),
        match r {
            Ok(_) => nodes_in_range(nodes@, table@.len() as int) && batch_applied(
                old(file).nodes@,
                final(file).nodes@,
                node_ids(nodes@),
                nodes@.len() as int,
                |j: int, e: OsmElement<OsmNodeData>|
                    node_built(final(file).string_table@, strs_of(table@), nodes@[j], e),
            ),
            Err(e) => e == DecodeError::BadStringIndex && !nodes_in_range(
                nodes@,
                table@.len() as int,
            ) || e == DecodeError::TooManyStrings && final(file).string_table.next() == u32::MAX,
        },
{
    let ghost tv = strs_of(table@);
    let ghost ids = node_ids(nodes@);
    let mut i: usize = 0;
    while i < nodes.len()
        invariant
            interned_from(*file, *old(file), strs_of(table@)),
            old(file).wf(),
            i <= nodes@.len(),
            file.wf(),
            only_nodes_changed(*file, *old(file)),
            tv == strs_of(table@),
            ids == node_ids(nodes@),
            nodes_in_range(nodes@.take(i as int), table@.len() as int),
            batch_applied(
                old(file).nodes@,
                file.nodes@,
                ids,
                i as int,
                |j: int, e: OsmElement<OsmNodeData>|
                    node_built(file.string_table@, tv, nodes@[j], e),
            ),
        decreases nodes@.len() - i,
    {
        let node = &nodes[i];
        let pairs = zip_indices(&node.keys, &node.vals);
        let ghost f0 = *file;
        let tr = intern_pairs(file, table, &pairs);
        let tags = match tr {
            Ok(t) => t,
            Err(e) => {
                proof {
                    if e == DecodeError::BadStringIndex {
                        assert(!nodes_in_range(nodes@, table@.len() as int)) by {
                            assert(nodes@[i as int] == *node);
                        }
                    }
                }
                {
                    proof {
                        lemma_room(*old(file), *file, strs_of(table@));
                    }
                    return Err(e);
                }
            },
        };
        let ghost st = file.string_table@;
        proof {
            let b0 = |j: int, e: OsmElement<OsmNodeData>| node_built(f0.string_table@, tv, nodes@[j], e);
            let b1 = |j: int, e: OsmElement<OsmNodeData>| node_built(st, tv, nodes@[j], e);
            assert forall|k: i64| #[trigger] file.nodes@.contains_key(k) && last_idx(ids, i as int, k)
                >= 0 implies b1(last_idx(ids, i as int, k), file.nodes@[k]) by {
                let j = last_idx(ids, i as int, k);
                assert(b0(j, file.nodes@[k]));
                lemma_tags_match_extends(
                    f0.string_table@,
                    st,
                    file.nodes@[k].tags@,
                    tag_strs(tv, zip_pairs(nodes@[j].keys@, nodes@[j].vals@)),
                );
            }
        }
        let e = OsmElement { id: node.id, tags, el: OsmNodeData { lat: node.lat, lon: node.lon } };
        let ghost mid = file.nodes@;
        file.nodes.put(e);
        proof {
            let b1 = |j: int, e: OsmElement<OsmNodeData>| node_built(st, tv, nodes@[j], e);
            lemma_batch_step(old(file).nodes@, mid, ids, i as int, b1, e);
            assert forall|j: int| 0 <= j < i + 1 implies pairs_in_range(
                zip_pairs((#[trigger] nodes@.take(i + 1)[j]).keys@, nodes@.take(i + 1)[j].vals@),
                table@.len() as int,
            ) by {
                if j < i {
                    assert(nodes@.take(i + 1)[j] == nodes@.take(i as int)[j]);
                }
            }
        }
        i = i + 1;
    }
    proof {
        assert(nodes@.take(i as int) =~= nodes@);
    }
    Ok(())
}


/// Entity `e` is way record `w`: node ids decoded from deltas, tags read through `st`.
pub open spec fn way_built(
    st: Map<u32, Seq<char>>,
    tv: Seq<Seq<char>>,
    w: PbWay,
    e: OsmElement<OsmWayData>,
) -> bool {
    &&& e.id == w.id
    &&& e.el.refs@.len() == w.refs@.len()
    &&& forall|i: int| 0 <= i < e.el.refs@.len() ==> e.el.refs@[i] == #[trigger] prefix_sum(w.refs@, i + 1)
    &&& tags_match(st, e.tags@, tag_strs(tv, zip_pairs(w.keys@, w.vals@)))
}

/// Way record `w` can be decoded against a table of `len` strings.
pub open spec fn way_ok(w: PbWay, len: int) -> bool {
    pairs_in_range(zip_pairs(w.keys@, w.vals@), len) && sums_fit(w.refs@)
}

pub open spec fn way_ids(ways: Seq<PbWay>) -> Seq<i64> {
    Seq::new(ways.len(), |i: int| ways[i].id)
}

pub open spec fn only_ways_changed(file2: OsmFile, file: OsmFile) -> bool {
    &&& file2.nodes == file.nodes
    &&& file2.relations == file.relations
    &&& file2.header == file.header
    &&& extends(file2.string_table@, file.string_table@)
}

/// Stores the way records `ways`, their tags interned into the document.
pub fn read_osm_ways(file: &mut OsmFile, table: &Vec<String>, ways: &Vec<PbWay>) -> (r: Result<
    (),
    DecodeError,
>)
    requires
        old(file).wf(),
    ensures
        final(file).wf(),
        interned_from(*final(file), *old(file), strs_of(table@)),
        r matches Err(e) && e == DecodeError::TooManyStrings ==> old(file).string_table.next()
            + table@.len() >= u32::MAX,
        only_ways_changed(*final(file), *old(file)),
        match r {
            Ok(_) => (forall|i: int| 0 <= i < ways@.len() ==> way_ok(#[trigger] ways@[i], table@.len() as int))
                && batch_applied(
                old(file).ways@,
                final(file).ways@,
                way_ids(ways@),
                ways@.len() as int,
                |j: int, e: OsmElement<OsmWayData>|
                    way_built(final(file).string_table@, strs_of(table@), ways@[j], e),
            ),
            Err(e) => e == DecodeError::TooManyStrings && final(file).string_table.next() == u32::MAX || (e == DecodeError::BadStringIndex
                || e == DecodeError::Overflow) && exists|i: int|
                0 <= i < ways@.len() && !way_ok(#[trigger] ways@[i], table@.len() as int),
        },
{
    let ghost tv = strs_of(table@);
    let ghost ids = way_ids(ways@);
    let mut i: usize = 0;
    while i < ways.len()
        invariant
            interned_from(*file, *old(file), strs_of(table@)),
            old(file).wf(),
            i <= ways@.len(),
            file.wf(),
            only_ways_changed(*file, *old(file)),
            tv == strs_of(table@),
            ids == way_ids(ways@),
            forall|j: int| 0 <= j < i ==> way_ok(#[trigger] ways@[j], table@.len() as int),
            batch_applied(
                old(file).ways@,
                file.ways@,
                ids,
                i as int,
                |j: int, e: OsmElement<OsmWayData>| way_built(file.string_table@, tv, ways@[j], e),
            ),
        decreases ways@.len() - i,
    {
        let way = &ways[i];
        let pairs = zip_indices(&way.keys, &way.vals);
        let ghost f0 = *file;
        let tr = intern_pairs(file, table, &pairs);
        let tags = match tr {
            Ok(t) => t,
            Err(e) => {
                proof {
                    if e == DecodeError::BadStringIndex {
                        assert(!way_ok(ways@[i as int], table@.len() as int));
                    }
                }
                {
                    proof {
                        lemma_room(*old(file), *file, strs_of(table@));
                    }
                    return Err(e);
                }
            },
        };
        let refs = match delta_decode(&way.refs) {
            Some(v) => v,
            None => {
                assert(!way_ok(ways@[i as int], table@.len() as int));
                return Err(DecodeError::Overflow);
            },
        };
        let ghost st = file.string_table@;
        proof {
            let b0 = |j: int, e: OsmElement<OsmWayData>| way_built(f0.string_table@, tv, ways@[j], e);
            let b1 = |j: int, e: OsmElement<OsmWayData>| way_built(st, tv, ways@[j], e);
            assert forall|k: i64| #[trigger] file.ways@.contains_key(k) && last_idx(ids, i as int, k)
                >= 0 implies b1(last_idx(ids, i as int, k), file.ways@[k]) by {
                let j = last_idx(ids, i as int, k);
                assert(b0(j, file.ways@[k]));
                lemma_tags_match_extends(
                    f0.string_table@,
                    st,
                    file.ways@[k].tags@,
                    tag_strs(tv, zip_pairs(ways@[j].keys@, ways@[j].vals@)),
                );
            }
        }
        let e = OsmElement { id: way.id, tags, el: OsmWayData { refs } };
        let ghost mid = file.ways@;
        file.ways.put(e);
        proof {
            let b1 = |j: int, e: OsmElement<OsmWayData>| way_built(st, tv, ways@[j], e);
            lemma_batch_step(old(file).ways@, mid, ids, i as int, b1, e);
        }
        i = i + 1;
    }
    Ok(())
}

/// The member kind of a type code: 0 node, 1 way, 2 relation.
pub open spec fn member_type_of(code: i32) -> Option<OsmRelationMemberType> {
    if code == 0 {
        Some(OsmRelationMemberType::Node)
    } else if code == 1 {
        Some(OsmRelationMemberType::Way)
    } else if code == 2 {
        Some(OsmRelationMemberType::Relation)
    } else {
        None
    }
}

/// Maps a member type code to its kind.
pub fn member_type(code: i32) -> (r: Option<OsmRelationMemberType>)
    ensures
        r == member_type_of(code),
{
    if code == 0 {
        Some(OsmRelationMemberType::Node)
    } else if code == 1 {
        Some(OsmRelationMemberType::Way)
    } else if code == 2 {
        Some(OsmRelationMemberType::Relation)
    } else {
        None
    }
}

/// The members `m` are those of relation record `r`, roles read through `st`.
pub open spec fn members_built(
    st: Map<u32, Seq<char>>,
    tv: Seq<Seq<char>>,
    r: PbRelation,
    m: Seq<(OsmRelationMemberType, OsmRelationMemberInfo)>,
) -> bool {
    &&& m.len() == r.memids@.len()
    &&& forall|j: int|
        0 <= j < m.len() ==> {
            &&& Some((#[trigger] m[j]).0) == member_type_of(r.types@[j])
            &&& m[j].1.ref_id == prefix_sum(r.memids@, j + 1)
            &&& st.contains_key(m[j].1.role_sid)
            &&& st[m[j].1.role_sid] == tv[r.roles_sid@[j] as int]
        }
}

/// The member lists of relation record `r` can be decoded against `len` strings.
pub open spec fn members_ok(r: PbRelation, len: int) -> bool {
    &&& r.roles_sid@.len() == r.memids@.len()
    &&& r.types@.len() == r.memids@.len()
    &&& sums_fit(r.memids@)
    &&& forall|j: int| 0 <= j < r.memids@.len() ==> 0 <= #[trigger] r.roles_sid@[j] < len
    &&& forall|j: int| 0 <= j < r.memids@.len() ==> #[trigger] member_type_of(r.types@[j]) is Some
}

fn read_members(file: &mut OsmFile, table: &Vec<String>, rel: &PbRelation) -> (r: Result<
    Vec<(OsmRelationMemberType, OsmRelationMemberInfo)>,
    DecodeError,
>)
    requires
        old(file).wf(),
    ensures
        final(file).wf(),
        interned_from(*final(file), *old(file), strs_of(table@)),
        same_entities(*final(file), *old(file)),
        match r {
            Ok(m) => members_ok(*rel, table@.len() as int) && members_built(
                final(file).string_table@,
                strs_of(table@),
                *rel,
                m@,
            ),
            Err(e) => (e == DecodeError::TooManyStrings ==> final(file).string_table.next()
                == u32::MAX) && (e == DecodeError::TooManyStrings || !members_ok(
                *rel,
                table@.len() as int,
            )),
        },
{
    let ghost tv = strs_of(table@);
    if rel.roles_sid.len() != rel.memids.len() || rel.types.len() != rel.memids.len() {
        return Err(DecodeError::LengthMismatch);
    }
    let ids = match delta_decode(&rel.memids) {
        Some(v) => v,
        None => {
            return Err(DecodeError::Overflow);
        },
    };
    let mut out: Vec<(OsmRelationMemberType, OsmRelationMemberInfo)> = Vec::new();
    let mut i: usize = 0;
    while i < ids.len()
        invariant
            interned_from(*file, *old(file), strs_of(table@)),
            i <= ids@.len(),
            ids@.len() == rel.memids@.len(),
            rel.roles_sid@.len() == rel.memids@.len(),
            rel.types@.len() == rel.memids@.len(),
            sums_fit(rel.memids@),
            forall|j: int| 0 <= j < ids@.len() ==> ids@[j] == #[trigger] prefix_sum(rel.memids@, j + 1),
            file.wf(),
            same_entities(*file, *old(file)),
            tv == strs_of(table@),
            forall|j: int| 0 <= j < i ==> 0 <= #[trigger] rel.roles_sid@[j] < table@.len(),
            forall|j: int| 0 <= j < i ==> #[trigger] member_type_of(rel.types@[j]) is Some,
            forall|j: int|
                0 <= j < i ==> {
                    &&& Some((#[trigger] out@[j]).0) == member_type_of(rel.types@[j])
                    &&& out@[j].1.ref_id == prefix_sum(rel.memids@, j + 1)
                    &&& file.string_table@.contains_key(out@[j].1.role_sid)
                    &&& file.string_table@[out@[j].1.role_sid] == tv[rel.roles_sid@[j] as int]
                },
            out@.len() == i,
        decreases ids@.len() - i,
    {
        let ty = match member_type(rel.types[i]) {
            Some(t) => t,
            None => {
                return Err(DecodeError::UnknownMemberType);
            },
        };
        let role = rel.roles_sid[i];
        if role < 0 {
            return Err(DecodeError::BadStringIndex);
        }
        let sid = match intern_index(file, table, role as u32) {
            Ok(s) => s,
            Err(e) => {
                return Err(e);
            },
        };
        out.push((ty, OsmRelationMemberInfo { ref_id: ids[i], role_sid: sid }));
        i = i + 1;
    }
    Ok(out)
}


/// Entity `e` is relation record `r`, roles and tags read through `st`.
pub open spec fn relation_built(
    st: Map<u32, Seq<char>>,
    tv: Seq<Seq<char>>,
    r: PbRelation,
    e: OsmElement<OsmRelationData>,
) -> bool {
    &&& e.id == r.id
    &&& members_built(st, tv, r, e.el.members@)
    &&& tags_match(st, e.tags@, tag_strs(tv, zip_pairs(r.keys@, r.vals@)))
}

/// Relation record `r` can be decoded against a table of `len` strings.
pub open spec fn relation_ok(r: PbRelation, len: int) -> bool {
    pairs_in_range(zip_pairs(r.keys@, r.vals@), len) && members_ok(r, len)
}

pub open spec fn relation_ids(rels: Seq<PbRelation>) -> Seq<i64> {
    Seq::new(rels.len(), |i: int| rels[i].id)
}

pub open spec fn only_relations_changed(file2: OsmFile, file: OsmFile) -> bool {
    &&& file2.nodes == file.nodes
    &&& file2.ways == file.ways
    &&& file2.header == file.header
    &&& extends(file2.string_table@, file.string_table@)
}

proof fn lemma_members_extends(
    st: Map<u32, Seq<char>>,
    st2: Map<u32, Seq<char>>,
    tv: Seq<Seq<char>>,
    r: PbRelation,
    m: Seq<(OsmRelationMemberType, OsmRelationMemberInfo)>,
)
    requires
        members_built(st, tv, r, m),
        extends(st2, st),
    ensures
        members_built(st2, tv, r, m),
{
    assert forall|j: int| 0 <= j < m.len() implies st2.contains_key((#[trigger] m[j]).1.role_sid) && st2[m[j].1.role_sid] == tv[r.roles_sid@[j] as int] by {
        assert(st.contains_key(m[j].1.role_sid));
    }
}

/// Stores the relation records `rels`, their tags and roles interned into the document.
pub fn read_osm_relations(file: &mut OsmFile, table: &Vec<String>, rels: &Vec<PbRelation>) -> (r:
    Result<(), DecodeError>)
    requires
        old(file).wf(),
    ensures
        final(file).wf(),
        interned_from(*final(file), *old(file), strs_of(table@)),
        r matches Err(e) && e == DecodeError::TooManyStrings ==> old(file).string_table.next()
            + table@.len() >= u32::MAX,
        only_relations_changed(*final(file), *old(file)),
        match r {
            Ok(_) => (forall|i: int|
                0 <= i < rels@.len() ==> relation_ok(#[trigger] rels@[i], table@.len() as int))
                && batch_applied(
                old(file).relations@,
                final(file).relations@,
                relation_ids(rels@),
                rels@.len() as int,
                |j: int, e: OsmElement<OsmRelationData>|
                    relation_built(final(file).string_table@, strs_of(table@), rels@[j], e),
            ),
            Err(e) => (e == DecodeError::TooManyStrings ==> final(file).string_table.next()
                == u32::MAX) && (e == DecodeError::TooManyStrings || exists|i: int|
                0 <= i < rels@.len() && !relation_ok(#[trigger] rels@[i], table@.len() as int)),
        },
{
    let ghost tv = strs_of(table@);
    let ghost ids = relation_ids(rels@);
    let mut i: usize = 0;
    while i < rels.len()
        invariant
            interned_from(*file, *old(file), strs_of(table@)),
            old(file).wf(),
            i <= rels@.len(),
            file.wf(),
            only_relations_changed(*file, *old(file)),
            tv == strs_of(table@),
            ids == relation_ids(rels@),
            forall|j: int| 0 <= j < i ==> relation_ok(#[trigger] rels@[j], table@.len() as int),
            batch_applied(
                old(file).relations@,
                file.relations@,
                ids,
                i as int,
                |j: int, e: OsmElement<OsmRelationData>|
                    relation_built(file.string_table@, tv, rels@[j], e),
            ),
        decreases rels@.len() - i,
    {
        let rel = &rels[i];
        let pairs = zip_indices(&rel.keys, &rel.vals);
        let ghost f0 = *file;
        let tags = match intern_pairs(file, table, &pairs) {
            Ok(t) => t,
            Err(e) => {
                proof {
                    if e == DecodeError::BadStringIndex {
                        assert(!relation_ok(rels@[i as int], table@.len() as int));
                    }
                }
                {
                    proof {
                        lemma_room(*old(file), *file, strs_of(table@));
                    }
                    return Err(e);
                }
            },
        };
        let ghost f1 = *file;
        let members = match read_members(file, table, rel) {
            Ok(m) => m,
            Err(e) => {
                proof {
                    if e != DecodeError::TooManyStrings {
                        assert(!relation_ok(rels@[i as int], table@.len() as int));
                    }
                }
                {
                    proof {
                        lemma_room(*old(file), *file, strs_of(table@));
                    }
                    return Err(e);
                }
            },
        };
        let ghost st = file.string_table@;
        proof {
            lemma_tags_match_extends(f1.string_table@, st, tags@, tag_strs(tv, zip_pairs(rel.keys@, rel.vals@)));
            let b0 = |j: int, e: OsmElement<OsmRelationData>| relation_built(f0.string_table@, tv, rels@[j], e);
            let b1 = |j: int, e: OsmElement<OsmRelationData>| relation_built(st, tv, rels@[j], e);
            assert forall|k: i64| #[trigger] file.relations@.contains_key(k) && last_idx(ids, i as int, k)
                >= 0 implies b1(last_idx(ids, i as int, k), file.relations@[k]) by {
                let j = last_idx(ids, i as int, k);
                assert(b0(j, file.relations@[k]));
                lemma_tags_match_extends(
                    f0.string_table@,
                    st,
                    file.relations@[k].tags@,
                    tag_strs(tv, zip_pairs(rels@[j].keys@, rels@[j].vals@)),
                );
                lemma_members_extends(f0.string_table@, st, tv, rels@[j], file.relations@[k].el.members@);
            }
        }
        let e = OsmElement { id: rel.id, tags, el: OsmRelationData { members } };
        let ghost mid = file.relations@;
        file.relations.put(e);
        proof {
            let b1 = |j: int, e: OsmElement<OsmRelationData>| relation_built(st, tv, rels@[j], e);
            lemma_batch_step(old(file).relations@, mid, ids, i as int, b1, e);
        }
        i = i + 1;
    }
    Ok(())
}


/// The (key, value) index pairs of dense node `j`: none when the array is empty.
pub open spec fn dense_tags_of(kv: Seq<i32>, j: int) -> Seq<(u32, u32)> {
    if kv.len() == 0 {
        Seq::empty()
    } else {
        dense_groups(kv).unwrap()[j]
    }
}

/// Dense records `d` can be decoded against a table of `len` strings: the lists are
/// parallel, the running sums fit, and there is one tag group per node.
pub open spec fn dense_ok(d: PbDenseNodes, len: int) -> bool {
    &&& sums_fit(d.id@)
    &&& sums_fit(d.lat@)
    &&& sums_fit(d.lon@)
    &&& d.lat@.len() == d.id@.len()
    &&& d.lon@.len() == d.id@.len()
    &&& d.keys_vals@.len() != 0 ==> dense_groups(d.keys_vals@) is Some && dense_groups(
        d.keys_vals@,
    ).unwrap().len() == d.id@.len()
    &&& forall|j: int|
        0 <= j < d.id@.len() ==> pairs_in_range(#[trigger] dense_tags_of(d.keys_vals@, j), len)
}

/// The absolute ids of dense records `d`.
pub open spec fn dense_ids(d: PbDenseNodes) -> Seq<i64> {
    Seq::new(d.id@.len(), |i: int| prefix_sum(d.id@, i + 1) as i64)
}

/// Entity `e` is dense node `j` of `d`.
pub open spec fn dense_built(
    st: Map<u32, Seq<char>>,
    tv: Seq<Seq<char>>,
    d: PbDenseNodes,
    j: int,
    e: OsmElement<OsmNodeData>,
) -> bool {
    &&& e.id == prefix_sum(d.id@, j + 1)
    &&& e.el.lat == prefix_sum(d.lat@, j + 1)
    &&& e.el.lon == prefix_sum(d.lon@, j + 1)
    &&& tags_match(st, e.tags@, tag_strs(tv, dense_tags_of(d.keys_vals@, j)))
}

/// Stores the dense node records `d`, their tags interned into the document.
pub fn read_osm_dense_nodes(file: &mut OsmFile, table: &Vec<String>, d: &PbDenseNodes) -> (r:
    Result<(), DecodeError>)
    requires
        old(file).wf(),
    ensures
        final(file).wf(),
        interned_from(*final(file), *old(file), strs_of(table@)),
        r matches Err(e) && e == DecodeError::TooManyStrings ==> old(file).string_table.next()
            + table@.len() >= u32::MAX,
        only_nodes_changed(*final(file), *old(file)),
        match r {
            Ok(_) => dense_ok(*d, table@.len() as int) && batch_applied(
                old(file).nodes@,
                final(file).nodes@,
                dense_ids(*d),
                d.id@.len() as int,
                |j: int, e: OsmElement<OsmNodeData>|
                    dense_built(final(file).string_table@, strs_of(table@), *d, j, e),
            ),
            Err(e) => (e == DecodeError::TooManyStrings ==> final(file).string_table.next()
                == u32::MAX) && (e == DecodeError::TooManyStrings || !dense_ok(
                *d,
                table@.len() as int,
            )),
        },
{
    let ghost tv = strs_of(table@);
    let ids = match delta_decode(&d.id) {
        Some(v) => v,
        None => {
            return Err(DecodeError::Overflow);
        },
    };
    let lats = match delta_decode(&d.lat) {
        Some(v) => v,
        None => {
            return Err(DecodeError::Overflow);
        },
    };
    let lons = match delta_decode(&d.lon) {
        Some(v) => v,
        None => {
            return Err(DecodeError::Overflow);
        },
    };
    if lats.len() != ids.len() || lons.len() != ids.len() {
        return Err(DecodeError::LengthMismatch);
    }
    let no_tags = d.keys_vals.len() == 0;
    let groups = if no_tags {
        Vec::new()
    } else {
        match split_dense_tags(&d.keys_vals) {
            Ok(g) => g,
            Err(e) => {
                {
                    proof {
                        lemma_room(*old(file), *file, strs_of(table@));
                    }
                    return Err(e);
                }
            },
        }
    };
    if !no_tags && groups.len() != ids.len() {
        return Err(DecodeError::LengthMismatch);
    }
    let empty: Vec<(u32, u32)> = Vec::new();
    let ghost dids = dense_ids(*d);
    proof {
        assert(dids =~= ids@);
    }
    let mut i: usize = 0;
    while i < ids.len()
        invariant
            interned_from(*file, *old(file), strs_of(table@)),
            old(file).wf(),
            i <= ids@.len(),
            ids@.len() == d.id@.len(),
            lats@.len() == d.id@.len(),
            lons@.len() == d.id@.len(),
            forall|j: int| 0 <= j < ids@.len() ==> ids@[j] == #[trigger] prefix_sum(d.id@, j + 1),
            forall|j: int| 0 <= j < ids@.len() ==> lats@[j] == #[trigger] prefix_sum(d.lat@, j + 1),
            forall|j: int| 0 <= j < ids@.len() ==> lons@[j] == #[trigger] prefix_sum(d.lon@, j + 1),
            sums_fit(d.id@),
            sums_fit(d.lat@),
            sums_fit(d.lon@),
            no_tags == (d.keys_vals@.len() == 0),
            !no_tags ==> dense_groups(d.keys_vals@) == Some(views_of(groups@)),
            !no_tags ==> groups@.len() == ids@.len(),
            empty@ == Seq::<(u32, u32)>::empty(),
            dids == ids@,
            dids == dense_ids(*d),
            file.wf(),
            only_nodes_changed(*file, *old(file)),
            tv == strs_of(table@),
            forall|j: int|
                0 <= j < i ==> pairs_in_range(
                    #[trigger] dense_tags_of(d.keys_vals@, j),
                    table@.len() as int,
                ),
            batch_applied(
                old(file).nodes@,
                file.nodes@,
                dids,
                i as int,
                |j: int, e: OsmElement<OsmNodeData>| dense_built(file.string_table@, tv, *d, j, e),
            ),
        decreases ids@.len() - i,
    {
        let pairs = if no_tags {
            &empty
        } else {
            &groups[i]
        };
        assert(pairs@ == dense_tags_of(d.keys_vals@, i as int));
        let ghost f0 = *file;
        let tags = match intern_pairs(file, table, pairs) {
            Ok(t) => t,
            Err(e) => {
                {
                    proof {
                        lemma_room(*old(file), *file, strs_of(table@));
                    }
                    return Err(e);
                }
            },
        };
        let ghost st = file.string_table@;
        proof {
            let b0 = |j: int, e: OsmElement<OsmNodeData>| dense_built(f0.string_table@, tv, *d, j, e);
            let b1 = |j: int, e: OsmElement<OsmNodeData>| dense_built(st, tv, *d, j, e);
            assert forall|k: i64| #[trigger] file.nodes@.contains_key(k) && last_idx(dids, i as int, k)
                >= 0 implies b1(last_idx(dids, i as int, k), file.nodes@[k]) by {
                let j = last_idx(dids, i as int, k);
                assert(b0(j, file.nodes@[k]));
                lemma_tags_match_extends(
                    f0.string_table@,
                    st,
                    file.nodes@[k].tags@,
                    tag_strs(tv, dense_tags_of(d.keys_vals@, j)),
                );
            }
        }
        let e = OsmElement { id: ids[i], tags, el: OsmNodeData { lat: lats[i], lon: lons[i] } };
        let ghost mid = file.nodes@;
        file.nodes.put(e);
        proof {
            let b1 = |j: int, e: OsmElement<OsmNodeData>| dense_built(st, tv, *d, j, e);
            lemma_batch_step(old(file).nodes@, mid, dids, i as int, b1, e);
        }
        i = i + 1;
    }
    Ok(())
}

/// Relies on String::from_utf8: it succeeds exactly on valid UTF-8 and then holds the
/// decoded characters.
#[verifier::external_body]
fn utf8_string(b: Vec<u8>) -> (r: Option<String>)
    ensures
        r is Some <==> vstd::utf8::valid_utf8(b@),
        r matches Some(s) ==> s@ == vstd::utf8::decode_utf8(b@),
{
    String::from_utf8(b).ok()
}

/// Decodes the string table of a block.
pub fn decode_string_table(raw: &Vec<Vec<u8>>) -> (r: Result<Vec<String>, DecodeError>)
    ensures
        match r {
            Ok(t) => t@.len() == raw@.len() && forall|i: int|
                0 <= i < raw@.len() ==> vstd::utf8::valid_utf8(#[trigger] raw@[i]@) && t@[i]@
                    == vstd::utf8::decode_utf8(raw@[i]@),
            Err(e) => e == DecodeError::InvalidUtf8 && exists|i: int|
                0 <= i < raw@.len() && !vstd::utf8::valid_utf8(#[trigger] raw@[i]@),
        },
{
    let mut out: Vec<String> = Vec::new();
    let mut i: usize = 0;
    while i < raw.len()
        invariant
            i <= raw@.len(),
            out@.len() == i,
            forall|j: int|
                0 <= j < i ==> vstd::utf8::valid_utf8(#[trigger] raw@[j]@) && out@[j]@
                    == vstd::utf8::decode_utf8(raw@[j]@),
        decreases raw@.len() - i,
    {
        let bytes = raw[i].clone();
        match utf8_string(bytes) {
            Some(s) => {
                out.push(s);
            },
            None => {
                return Err(DecodeError::InvalidUtf8);
            },
        }
        i = i + 1;
    }
    Ok(out)
}


/// Some id of `ids` equals `k`.
pub open spec fn ids_seen(ids: Seq<i64>, k: i64) -> bool {
    exists|j: int| 0 <= j < ids.len() && ids[j] == k
}

proof fn lemma_last_idx_prefix(ids: Seq<i64>, n: int, k: i64)
    requires
        0 <= n <= ids.len(),
    ensures
        last_idx(ids, n, k) >= 0 <==> exists|j: int| 0 <= j < n && ids[j] == k,
        last_idx(ids, n, k) >= 0 ==> last_idx(ids, n, k) < n && ids[last_idx(ids, n, k)] == k,
    decreases n,
{
    if n > 0 {
        lemma_last_idx_prefix(ids, n - 1, k);
        if ids[n - 1] == k {
            assert(exists|j: int| 0 <= j < n && ids[j] == k) by {
                assert(ids[n - 1] == k);
            }
        } else {
            if exists|j: int| 0 <= j < n && ids[j] == k {
                let j = choose|j: int| 0 <= j < n && ids[j] == k;
                assert(j < n - 1);
            }
        }
    }
}

/// Group `g` holds a node record, plain or dense, with id `k`.
pub open spec fn group_has_node(g: PbPrimitiveGroup, k: i64) -> bool {
    ids_seen(node_ids(g.nodes@), k) || (g.dense matches Some(d) && ids_seen(dense_ids(d), k))
}

/// Some group of `gs` holds a node, way or relation record with id `k`.
pub open spec fn block_has_node(gs: Seq<PbPrimitiveGroup>, k: i64) -> bool {
    exists|i: int| 0 <= i < gs.len() && group_has_node(#[trigger] gs[i], k)
}

pub open spec fn block_has_way(gs: Seq<PbPrimitiveGroup>, k: i64) -> bool {
    exists|i: int| 0 <= i < gs.len() && ids_seen(way_ids((#[trigger] gs[i]).ways@), k)
}

pub open spec fn block_has_relation(gs: Seq<PbPrimitiveGroup>, k: i64) -> bool {
    exists|i: int| 0 <= i < gs.len() && ids_seen(relation_ids((#[trigger] gs[i]).relations@), k)
}

/// Group `g` holds a dense node record with id `k`.
pub open spec fn dense_has(g: PbPrimitiveGroup, k: i64) -> bool {
    g.dense matches Some(d) && ids_seen(dense_ids(d), k)
}

/// Entity `e` is built from the last node record of group `g` with id `k`: dense
/// records come after the plain ones.
pub open spec fn node_last_in_group(
    st: Map<u32, Seq<char>>,
    tv: Seq<Seq<char>>,
    g: PbPrimitiveGroup,
    k: i64,
    e: OsmElement<OsmNodeData>,
) -> bool {
    if dense_has(g, k) {
        let d = g.dense.unwrap();
        dense_built(st, tv, d, last_idx(dense_ids(d), d.id@.len() as int, k), e)
    } else {
        node_built(st, tv, g.nodes@[last_idx(node_ids(g.nodes@), g.nodes@.len() as int, k)], e)
    }
}

/// Entity `e` is built from the last way record of group `g` with id `k`.
pub open spec fn way_last_in_group(
    st: Map<u32, Seq<char>>,
    tv: Seq<Seq<char>>,
    g: PbPrimitiveGroup,
    k: i64,
    e: OsmElement<OsmWayData>,
) -> bool {
    way_built(st, tv, g.ways@[last_idx(way_ids(g.ways@), g.ways@.len() as int, k)], e)
}

/// Entity `e` is built from the last relation record of group `g` with id `k`.
pub open spec fn relation_last_in_group(
    st: Map<u32, Seq<char>>,
    tv: Seq<Seq<char>>,
    g: PbPrimitiveGroup,
    k: i64,
    e: OsmElement<OsmRelationData>,
) -> bool {
    relation_built(
        st,
        tv,
        g.relations@[last_idx(relation_ids(g.relations@), g.relations@.len() as int, k)],
        e,
    )
}

/// Entity `e` is built from the last node record with id `k` of the groups `gs`.
pub open spec fn node_last_in_block(
    st: Map<u32, Seq<char>>,
    tv: Seq<Seq<char>>,
    gs: Seq<PbPrimitiveGroup>,
    k: i64,
    e: OsmElement<OsmNodeData>,
) -> bool {
    exists|i: int|
        0 <= i < gs.len() && group_has_node(#[trigger] gs[i], k) && (forall|i2: int|
            i < i2 < gs.len() ==> !group_has_node(#[trigger] gs[i2], k)) && node_last_in_group(
            st,
            tv,
            gs[i],
            k,
            e,
        )
}

pub open spec fn way_last_in_block(
    st: Map<u32, Seq<char>>,
    tv: Seq<Seq<char>>,
    gs: Seq<PbPrimitiveGroup>,
    k: i64,
    e: OsmElement<OsmWayData>,
) -> bool {
    exists|i: int|
        0 <= i < gs.len() && ids_seen(way_ids((#[trigger] gs[i]).ways@), k) && (forall|i2: int|
            i < i2 < gs.len() ==> !ids_seen(way_ids((#[trigger] gs[i2]).ways@), k))
            && way_last_in_group(st, tv, gs[i], k, e)
}

pub open spec fn relation_last_in_block(
    st: Map<u32, Seq<char>>,
    tv: Seq<Seq<char>>,
    gs: Seq<PbPrimitiveGroup>,
    k: i64,
    e: OsmElement<OsmRelationData>,
) -> bool {
    exists|i: int|
        0 <= i < gs.len() && ids_seen(relation_ids((#[trigger] gs[i]).relations@), k) && (forall|
            i2: int,
        | i < i2 < gs.len() ==> !ids_seen(relation_ids((#[trigger] gs[i2]).relations@), k))
            && relation_last_in_group(st, tv, gs[i], k, e)
}

/// Every record of group `g` can be decoded against a table of `len` strings.
pub open spec fn group_ok(g: PbPrimitiveGroup, len: int) -> bool {
    &&& nodes_in_range(g.nodes@, len)
    &&& (g.dense matches Some(d) ==> dense_ok(d, len))
    &&& forall|j: int| 0 <= j < g.ways@.len() ==> way_ok(#[trigger] g.ways@[j], len)
    &&& forall|j: int| 0 <= j < g.relations@.len() ==> relation_ok(#[trigger] g.relations@[j], len)
}

/// Every string of the block's table is valid UTF-8.
pub open spec fn block_utf8(b: PbPrimitiveBlock) -> bool {
    forall|i: int| 0 <= i < b.stringtable@.len() ==> vstd::utf8::valid_utf8(#[trigger] b.stringtable@[i]@)
}

/// Every record of the block can be decoded against its string table.
pub open spec fn block_ok(b: PbPrimitiveBlock) -> bool {
    forall|i: int|
        0 <= i < b.primitivegroup@.len() ==> group_ok(
            #[trigger] b.primitivegroup@[i],
            b.stringtable@.len() as int,
        )
}

/// The block's strings, decoded.
pub open spec fn block_strs(b: PbPrimitiveBlock) -> Seq<Seq<char>> {
    Seq::new(b.stringtable@.len(), |i: int| vstd::utf8::decode_utf8(b.stringtable@[i]@))
}

proof fn lemma_node_last_ext(
    st: Map<u32, Seq<char>>,
    st2: Map<u32, Seq<char>>,
    tv: Seq<Seq<char>>,
    g: PbPrimitiveGroup,
    k: i64,
    e: OsmElement<OsmNodeData>,
)
    requires
        node_last_in_group(st, tv, g, k, e),
        tags_interned(e.tags@, st),
        extends(st2, st),
    ensures
        node_last_in_group(st2, tv, g, k, e),
{
    if dense_has(g, k) {
        let d = g.dense.unwrap();
        let j = last_idx(dense_ids(d), d.id@.len() as int, k);
        lemma_tags_match_extends(st, st2, e.tags@, tag_strs(tv, dense_tags_of(d.keys_vals@, j)));
    } else {
        let n = g.nodes@[last_idx(node_ids(g.nodes@), g.nodes@.len() as int, k)];
        lemma_tags_match_extends(st, st2, e.tags@, tag_strs(tv, zip_pairs(n.keys@, n.vals@)));
    }
}

proof fn lemma_way_last_ext(
    st: Map<u32, Seq<char>>,
    st2: Map<u32, Seq<char>>,
    tv: Seq<Seq<char>>,
    g: PbPrimitiveGroup,
    k: i64,
    e: OsmElement<OsmWayData>,
)
    requires
        way_last_in_group(st, tv, g, k, e),
        tags_interned(e.tags@, st),
        extends(st2, st),
    ensures
        way_last_in_group(st2, tv, g, k, e),
{
    let w = g.ways@[last_idx(way_ids(g.ways@), g.ways@.len() as int, k)];
    lemma_tags_match_extends(st, st2, e.tags@, tag_strs(tv, zip_pairs(w.keys@, w.vals@)));
}

proof fn lemma_relation_last_ext(
    st: Map<u32, Seq<char>>,
    st2: Map<u32, Seq<char>>,
    tv: Seq<Seq<char>>,
    g: PbPrimitiveGroup,
    k: i64,
    e: OsmElement<OsmRelationData>,
)
    requires
        relation_last_in_group(st, tv, g, k, e),
        tags_interned(e.tags@, st),
        extends(st2, st),
    ensures
        relation_last_in_group(st2, tv, g, k, e),
{
    let r = g.relations@[last_idx(relation_ids(g.relations@), g.relations@.len() as int, k)];
    lemma_tags_match_extends(st, st2, e.tags@, tag_strs(tv, zip_pairs(r.keys@, r.vals@)));
    lemma_members_extends(st, st2, tv, r, e.el.members@);
}

/// What the loop over groups keeps: ids of the groups read so far are stored, built
/// from the last of their records in block order, and every other entity is as it
/// was.
pub open spec fn groups_applied(old: OsmFile, file: OsmFile, tv: Seq<Seq<char>>, gs: Seq<PbPrimitiveGroup>) -> bool {
    let st = file.string_table@;
    &&& forall|k: i64| #[trigger]
        file.nodes@.contains_key(k) <==> old.nodes@.contains_key(k) || block_has_node(gs, k)
    &&& forall|k: i64| #[trigger]
        file.ways@.contains_key(k) <==> old.ways@.contains_key(k) || block_has_way(gs, k)
    &&& forall|k: i64| #[trigger]
        file.relations@.contains_key(k) <==> old.relations@.contains_key(k) || block_has_relation(gs, k)
    &&& forall|k: i64| #[trigger]
        file.nodes@.contains_key(k) ==> if block_has_node(gs, k) {
            node_last_in_block(st, tv, gs, k, file.nodes@[k])
        } else {
            file.nodes@[k] == old.nodes@[k]
        }
    &&& forall|k: i64| #[trigger]
        file.ways@.contains_key(k) ==> if block_has_way(gs, k) {
            way_last_in_block(st, tv, gs, k, file.ways@[k])
        } else {
            file.ways@[k] == old.ways@[k]
        }
    &&& forall|k: i64| #[trigger]
        file.relations@.contains_key(k) ==> if block_has_relation(gs, k) {
            relation_last_in_block(st, tv, gs, k, file.relations@[k])
        } else {
            file.relations@[k] == old.relations@[k]
        }
}

/// Stores every record of a primitive block, its strings interned into the document.
/// It succeeds when the strings are UTF-8, every record can be decoded and the
/// interner has room. Then each kind holds the ids it held and those of the block;
/// an entity of the block is built from one of its records, tags and roles read
/// through the interner as the block's strings, the last record of an id winning;
/// every other entity is unchanged.
#[verifier::rlimit(60)]
pub fn read_osm_data(block: &PbPrimitiveBlock, file: &mut OsmFile) -> (r: Result<(), DecodeError>)
    requires
        old(file).wf(),
    ensures
        final(file).wf(),
        interned_from(*final(file), *old(file), block_strs(*block)),
        r matches Err(e) && e == DecodeError::TooManyStrings ==> old(file).string_table.next()
            + block.stringtable@.len() >= u32::MAX,
        final(file).header == old(file).header,
        extends(final(file).string_table@, old(file).string_table@),
        r is Ok ==> block_utf8(*block) && block_ok(*block),
        r is Ok ==> groups_applied(*old(file), *final(file), block_strs(*block), block.primitivegroup@),
        r matches Err(e) ==> (e == DecodeError::InvalidUtf8 && !block_utf8(*block)) || (e
            == DecodeError::TooManyStrings && final(file).string_table.next() == u32::MAX) || (
        block_utf8(*block) && !block_ok(*block)),
{
    let table = match decode_string_table(&block.stringtable) {
        Ok(t) => t,
        Err(e) => {
            return Err(e);
        },
    };
    let ghost tv = strs_of(table@);
    let ghost len = table@.len() as int;
    proof {
        assert(tv =~= block_strs(*block));
    }
    let ghost gs = block.primitivegroup@;
    let mut g: usize = 0;
    proof {
        assert(groups_applied(*old(file), *file, tv, gs.take(0)));
    }
    while g < block.primitivegroup.len()
        invariant
            interned_from(*file, *old(file), strs_of(table@)),
            old(file).wf(),
            g <= gs.len(),
            gs == block.primitivegroup@,
            tv == strs_of(table@),
            tv == block_strs(*block),
            len == table@.len(),
            len == block.stringtable@.len(),
            block_utf8(*block),
            file.wf(),
            file.header == old(file).header,
            extends(file.string_table@, old(file).string_table@),
            forall|i: int| 0 <= i < g ==> group_ok(#[trigger] gs[i], len),
            groups_applied(*old(file), *file, tv, gs.take(g as int)),
        decreases gs.len() - g,
    {
        let group = &block.primitivegroup[g];
        let ghost f0 = *file;
        if group.nodes.len() > 0 {
            match read_osm_nodes(file, &table, &group.nodes) {
                Ok(_) => {},
                Err(e) => {
                    {
                    proof {
                        lemma_room(*old(file), *file, block_strs(*block));
                    }
                    return Err(e);
                }
                },
            }
        }
        let ghost f1 = *file;
        proof {
            let ids = node_ids(group.nodes@);
            assert forall|k: i64| #[trigger] f1.nodes@.contains_key(k) implies (f0.nodes@.contains_key(k)
                || ids_seen(ids, k)) && (if ids_seen(ids, k) {
                node_built(f1.string_table@, tv, group.nodes@[last_idx(ids, ids.len() as int, k)], f1.nodes@[k])
            } else {
                f1.nodes@[k] == f0.nodes@[k]
            }) by {
                lemma_last_idx_prefix(ids, ids.len() as int, k);
            }
            assert forall|k: i64| ids_seen(ids, k) implies #[trigger] f1.nodes@.contains_key(k) by {
                lemma_last_idx_prefix(ids, ids.len() as int, k);
            }
        }
        match &group.dense {
            Some(d) => match read_osm_dense_nodes(file, &table, d) {
                Ok(_) => {},
                Err(e) => {
                    {
                    proof {
                        lemma_room(*old(file), *file, block_strs(*block));
                    }
                    return Err(e);
                }
                },
            },
            None => {},
        }
        let ghost f2 = *file;
        proof {
            assert forall|k: i64| #[trigger] f2.nodes@.contains_key(k) implies (f0.nodes@.contains_key(k)
                || group_has_node(*group, k)) && (if group_has_node(*group, k) {
                node_last_in_group(f2.string_table@, tv, *group, k, f2.nodes@[k])
            } else {
                f2.nodes@[k] == f0.nodes@[k]
            }) by {
                if group.dense is Some {
                    let ids = dense_ids(group.dense.unwrap());
                    lemma_last_idx_prefix(ids, ids.len() as int, k);
                }
                if !dense_has(*group, k) {
                    assert(f1.nodes@.contains_key(k));
                    assert(f2.nodes@[k] == f1.nodes@[k]);
                    assert(tags_interned(f1.nodes@[k].tags@, f1.string_table@));
                    if group_has_node(*group, k) {
                        let ids = node_ids(group.nodes@);
                        let n = group.nodes@[last_idx(ids, ids.len() as int, k)];
                        lemma_tags_match_extends(
                            f1.string_table@,
                            f2.string_table@,
                            f1.nodes@[k].tags@,
                            tag_strs(tv, zip_pairs(n.keys@, n.vals@)),
                        );
                    }
                }
            }
            assert forall|k: i64| group_has_node(*group, k) implies #[trigger] f2.nodes@.contains_key(k) by {
                if group.dense is Some {
                    let ids = dense_ids(group.dense.unwrap());
                    lemma_last_idx_prefix(ids, ids.len() as int, k);
                }
            }
        }
        if group.ways.len() > 0 {
            match read_osm_ways(file, &table, &group.ways) {
                Ok(_) => {},
                Err(e) => {
                    {
                    proof {
                        lemma_room(*old(file), *file, block_strs(*block));
                    }
                    return Err(e);
                }
                },
            }
        }
        let ghost f3 = *file;
        assert(interned_from(f3, *old(file), block_strs(*block)) && extends(f3.string_table@, old(file).string_table@));
        if group.relations.len() > 0 {
            match read_osm_relations(file, &table, &group.relations) {
                Ok(_) => {},
                Err(e) => {
                    {
                    proof {
                        lemma_interned_trans(*old(file), f3, *file, block_strs(*block));
                        lemma_room(*old(file), *file, block_strs(*block));
                    }
                    return Err(e);
                }
                },
            }
        }
        let ghost f4 = *file;
        proof {
            let st = f4.string_table@;
            let pre = gs.take(g + 1);
            let prev = gs.take(g as int);
            assert(pre.drop_last() =~= prev);
            assert(pre[g as int] == *group);
            assert(forall|i: int| 0 <= i < g ==> #[trigger] pre[i] == prev[i]);
            assert(group_ok(*group, len));
            let wids = way_ids(group.ways@);
            let rids = relation_ids(group.relations@);
            assert(f4.ways@ == f3.ways@ && f2.ways@ == f0.ways@);
            assert(f3.relations@ == f0.relations@);
            assert forall|k: i64| #[trigger] f4.nodes@.contains_key(k) <==> old(file).nodes@.contains_key(k)
                || block_has_node(pre, k) by {
                if block_has_node(pre, k) {
                    let i2 = choose|i2: int| 0 <= i2 < pre.len() && group_has_node(#[trigger] pre[i2], k);
                    if i2 < g {
                        assert(prev[i2] == pre[i2]);
                        assert(block_has_node(prev, k));
                    }
                }
                if block_has_node(prev, k) {
                    let i2 = choose|i2: int| 0 <= i2 < prev.len() && group_has_node(#[trigger] prev[i2], k);
                    assert(pre[i2] == prev[i2]);
                }
            }
            assert forall|k: i64| #[trigger] f4.nodes@.contains_key(k) implies (if block_has_node(pre, k) {
                node_last_in_block(st, tv, pre, k, f4.nodes@[k])
            } else {
                f4.nodes@[k] == old(file).nodes@[k]
            }) by {
                if group_has_node(*group, k) {
                    lemma_node_last_ext(f2.string_table@, st, tv, *group, k, f4.nodes@[k]);
                    assert(node_last_in_group(st, tv, pre[g as int], k, f4.nodes@[k]));
                    assert(block_has_node(pre, k));
                } else if block_has_node(prev, k) {
                    let i = choose|i: int|
                        0 <= i < prev.len() && group_has_node(#[trigger] prev[i], k) && (forall|i2: int|
                            i < i2 < prev.len() ==> !group_has_node(#[trigger] prev[i2], k))
                            && node_last_in_group(f0.string_table@, tv, prev[i], k, f4.nodes@[k]);
                    lemma_node_last_ext(f0.string_table@, st, tv, prev[i], k, f4.nodes@[k]);
                    assert(pre[i] == prev[i]);
                    assert forall|i2: int| i < i2 < pre.len() implies !group_has_node(#[trigger] pre[i2], k) by {
                        if i2 < g {
                            assert(pre[i2] == prev[i2]);
                        }
                    }
                    assert(block_has_node(pre, k));
                } else {
                    if block_has_node(pre, k) {
                        let i2 = choose|i2: int| 0 <= i2 < pre.len() && group_has_node(#[trigger] pre[i2], k);
                        assert(i2 < g);
                        assert(prev[i2] == pre[i2]);
                    }
                }
            }
            assert forall|k: i64| #[trigger] f4.ways@.contains_key(k) <==> old(file).ways@.contains_key(k)
                || block_has_way(pre, k) by {
                lemma_last_idx_prefix(wids, wids.len() as int, k);
                assert(f3.ways@.contains_key(k) <==> f2.ways@.contains_key(k) || ids_seen(wids, k));
                if block_has_way(pre, k) {
                    let i2 = choose|i2: int| 0 <= i2 < pre.len() && ids_seen(way_ids((#[trigger] pre[i2]).ways@), k);
                    if i2 < g {
                        assert(prev[i2] == pre[i2]);
                        assert(block_has_way(prev, k));
                    }
                }
                if block_has_way(prev, k) {
                    let i2 = choose|i2: int| 0 <= i2 < prev.len() && ids_seen(way_ids((#[trigger] prev[i2]).ways@), k);
                    assert(pre[i2] == prev[i2]);
                }
            }
            assert forall|k: i64| #[trigger] f4.ways@.contains_key(k) implies (if block_has_way(pre, k) {
                way_last_in_block(st, tv, pre, k, f4.ways@[k])
            } else {
                f4.ways@[k] == old(file).ways@[k]
            }) by {
                lemma_last_idx_prefix(wids, wids.len() as int, k);
                if ids_seen(wids, k) {
                    assert(way_last_in_group(f3.string_table@, tv, *group, k, f4.ways@[k]));
                    lemma_way_last_ext(f3.string_table@, st, tv, *group, k, f4.ways@[k]);
                    assert(way_last_in_group(st, tv, pre[g as int], k, f4.ways@[k]));
                    assert(block_has_way(pre, k));
                } else if block_has_way(prev, k) {
                    let i = choose|i: int|
                        0 <= i < prev.len() && ids_seen(way_ids((#[trigger] prev[i]).ways@), k) && (forall|i2: int|
                            i < i2 < prev.len() ==> !ids_seen(way_ids((#[trigger] prev[i2]).ways@), k))
                            && way_last_in_group(f0.string_table@, tv, prev[i], k, f4.ways@[k]);
                    lemma_way_last_ext(f0.string_table@, st, tv, prev[i], k, f4.ways@[k]);
                    assert(pre[i] == prev[i]);
                    assert forall|i2: int| i < i2 < pre.len() implies !ids_seen(way_ids((#[trigger] pre[i2]).ways@), k) by {
                        if i2 < g {
                            assert(pre[i2] == prev[i2]);
                        }
                    }
                    assert(block_has_way(pre, k));
                } else {
                    if block_has_way(pre, k) {
                        let i2 = choose|i2: int| 0 <= i2 < pre.len() && ids_seen(way_ids((#[trigger] pre[i2]).ways@), k);
                        assert(i2 < g);
                        assert(prev[i2] == pre[i2]);
                    }
                }
            }
            assert forall|k: i64| #[trigger] f4.relations@.contains_key(k) <==> old(file).relations@.contains_key(k)
                || block_has_relation(pre, k) by {
                lemma_last_idx_prefix(rids, rids.len() as int, k);
                assert(f4.relations@.contains_key(k) <==> f3.relations@.contains_key(k) || ids_seen(rids, k));
                if block_has_relation(pre, k) {
                    let i2 = choose|i2: int| 0 <= i2 < pre.len() && ids_seen(relation_ids((#[trigger] pre[i2]).relations@), k);
                    if i2 < g {
                        assert(prev[i2] == pre[i2]);
                        assert(block_has_relation(prev, k));
                    }
                }
                if block_has_relation(prev, k) {
                    let i2 = choose|i2: int| 0 <= i2 < prev.len() && ids_seen(relation_ids((#[trigger] prev[i2]).relations@), k);
                    assert(pre[i2] == prev[i2]);
                }
            }
            assert forall|k: i64| #[trigger] f4.relations@.contains_key(k) implies (if block_has_relation(pre, k) {
                relation_last_in_block(st, tv, pre, k, f4.relations@[k])
            } else {
                f4.relations@[k] == old(file).relations@[k]
            }) by {
                lemma_last_idx_prefix(rids, rids.len() as int, k);
                if ids_seen(rids, k) {
                    assert(relation_last_in_group(st, tv, pre[g as int], k, f4.relations@[k]));
                    assert(block_has_relation(pre, k));
                } else if block_has_relation(prev, k) {
                    let i = choose|i: int|
                        0 <= i < prev.len() && ids_seen(relation_ids((#[trigger] prev[i]).relations@), k) && (forall|i2: int|
                            i < i2 < prev.len() ==> !ids_seen(relation_ids((#[trigger] prev[i2]).relations@), k))
                            && relation_last_in_group(f0.string_table@, tv, prev[i], k, f4.relations@[k]);
                    lemma_relation_last_ext(f0.string_table@, st, tv, prev[i], k, f4.relations@[k]);
                    assert(pre[i] == prev[i]);
                    assert forall|i2: int| i < i2 < pre.len() implies !ids_seen(relation_ids((#[trigger] pre[i2]).relations@), k) by {
                        if i2 < g {
                            assert(pre[i2] == prev[i2]);
                        }
                    }
                    assert(block_has_relation(pre, k));
                } else {
                    if block_has_relation(pre, k) {
                        let i2 = choose|i2: int| 0 <= i2 < pre.len() && ids_seen(relation_ids((#[trigger] pre[i2]).relations@), k);
                        assert(i2 < g);
                        assert(prev[i2] == pre[i2]);
                    }
                }
            }
            assert(groups_applied(*old(file), f4, tv, pre));
        }
        g = g + 1;
    }
    proof {
        assert(gs.take(g as int) =~= gs);
    }
    Ok(())
}

/// The big-endian value of four bytes.
pub open spec fn be_u32(b0: u8, b1: u8, b2: u8, b3: u8) -> int {
    b0 as int * 16777216 + b1 as int * 65536 + b2 as int * 256 + b3 as int
}

/// Where the header message of the frame at `pos` lies: it follows a 4-byte
/// big-endian length.
pub fn frame_header_range(bytes: &[u8], pos: usize) -> (r: Result<(usize, usize), DecodeError>)
    ensures
        match r {
            Ok((start, end)) => pos + 4 <= bytes@.len() && start == pos + 4 && end == start
                + be_u32(bytes@[pos as int], bytes@[pos + 1], bytes@[pos + 2], bytes@[pos + 3])
                && end <= bytes@.len(),
            Err(e) => e == DecodeError::Truncated && (pos + 4 > bytes@.len() || pos + 4 + be_u32(
                bytes@[pos as int],
                bytes@[pos + 1],
                bytes@[pos + 2],
                bytes@[pos + 3],
            ) > bytes@.len()),
        },
{
    if pos > bytes.len() || bytes.len() - pos < 4 {
        return Err(DecodeError::Truncated);
    }
    let len: u64 = bytes[pos] as u64 * 16777216 + bytes[pos + 1] as u64 * 65536 + bytes[pos + 2] as u64
        * 256 + bytes[pos + 3] as u64;
    let start = pos + 4;
    if len > (bytes.len() - start) as u64 {
        return Err(DecodeError::Truncated);
    }
    Ok((start, start + len as usize))
}

/// Where the blob of a frame lies: `datasize` bytes right after its header, which
/// ends at `header_end`. The next frame starts where the blob ends.
pub fn frame_data_range(total: usize, header_end: usize, datasize: i32) -> (r: Result<
    (usize, usize),
    DecodeError,
>)
    ensures
        match r {
            Ok((start, end)) => datasize >= 0 && start == header_end && end == header_end
                + datasize && end <= total,
            Err(e) => e == DecodeError::Malformed && datasize < 0 || e == DecodeError::Truncated
                && datasize >= 0 && header_end + datasize > total,
        },
{
    if datasize < 0 {
        return Err(DecodeError::Malformed);
    }
    if header_end > total || total - header_end < datasize as usize {
        return Err(DecodeError::Truncated);
    }
    Ok((header_end, header_end + datasize as usize))
}

/// The two kinds of frame.
#[derive(PartialEq, Eq, Structural, Clone, Copy, Debug)]
pub enum BlobKind {
    Header,
    Data,
}

/// The kind of frame a header's type string names.
pub fn blob_kind(ty: &String) -> (r: Result<BlobKind, DecodeError>)
    ensures
        ty@ == "OSMHeader"@ ==> r == Ok::<BlobKind, DecodeError>(BlobKind::Header),
        ty@ == "OSMData"@ ==> r == Ok::<BlobKind, DecodeError>(BlobKind::Data),
        ty@ != "OSMHeader"@ && ty@ != "OSMData"@ ==> r == Err::<BlobKind, DecodeError>(
            DecodeError::UnknownBlobType,
        ),
{
    proof {
        reveal_strlit("OSMHeader");
        reveal_strlit("OSMData");
        assert("OSMData"@.len() != "OSMHeader"@.len());
    }
    let header = String::from_str("OSMHeader");
    let data = String::from_str("OSMData");
    if *ty == header {
        Ok(BlobKind::Header)
    } else if *ty == data {
        Ok(BlobKind::Data)
    } else {
        Err(DecodeError::UnknownBlobType)
    }
}

/// What zlib decompression makes of `data`, or `None` where the stream is invalid.
pub uninterp spec fn inflated(data: Seq<u8>) -> Option<Seq<u8>>;

/// Relies on flate2::read::ZlibDecoder with std::io::Read::read_to_end: the
/// decompressed bytes of a zlib stream, a function of the stream alone.
#[verifier::external_body]
fn zlib_inflate(data: &[u8]) -> (r: Option<Vec<u8>>)
    ensures
        match r {
            Some(v) => inflated(data@) == Some(v@),
            None => inflated(data@) is None,
        },
{
    let mut out = Vec::new();
    let mut dec = flate2::read::ZlibDecoder::new(data);
    match std::io::Read::read_to_end(&mut dec, &mut out) {
        Ok(_) => Some(out),
        Err(_) => None,
    }
}

/// The decompressed payload of a blob whose only supported scheme is zlib.
pub fn decompress_blob_data(zlib_data: Option<&[u8]>) -> (r: Result<Vec<u8>, DecodeError>)
    ensures
        match zlib_data {
            None => r == Err::<Vec<u8>, DecodeError>(DecodeError::UnsupportedCompression),
            Some(d) => match inflated(d@) {
                Some(v) => r matches Ok(out) && out@ == v,
                None => r == Err::<Vec<u8>, DecodeError>(DecodeError::Decompress),
            },
        },
{
    match zlib_data {
        None => Err(DecodeError::UnsupportedCompression),
        Some(d) => match zlib_inflate(d) {
            Some(v) => Ok(v),
            None => Err(DecodeError::Decompress),
        },
    }
}

} // verus!
