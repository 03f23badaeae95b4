//! Geometry read off the graph: resolved coordinates, the averaged position used to
//! place dots and labels, and the stitching of a multipolygon's ways into rings.
use vstd::prelude::*;

use crate::graph::{OsmFile, OsmRelationData, OsmRelationMemberInfo, OsmRelationMemberType};
use crate::select::OSMElementType;

verus! {

broadcast use vstd::std_specs::hash::group_hash_axioms;

/// The (lat, lon) of each node id of `refs` that resolves; dangling ids are skipped.
pub open spec fn resolved_points(g: OsmFile, refs: Seq<i64>) -> Seq<(i64, i64)>
    decreases refs.len(),
{
    if refs.len() == 0 {
        Seq::empty()
    } else {
        resolved_points(g, refs.drop_last()) + (if g.nodes@.contains_key(refs.last()) {
            seq![(g.nodes@[refs.last()].el.lat, g.nodes@[refs.last()].el.lon)]
        } else {
            Seq::empty()
        })
    }
}

/// The coordinates of the nodes that `refs` name, in order, dangling ids skipped.
pub fn way_points(g: &OsmFile, refs: &Vec<i64>) -> (r: Vec<(i64, i64)>)
    ensures
        r@ == resolved_points(*g, refs@),
{
    let mut out: Vec<(i64, i64)> = Vec::new();
    let mut i: usize = 0;
    while i < refs.len()
        invariant
            i <= refs@.len(),
            out@ == resolved_points(*g, refs@.take(i as int)),
        decreases refs@.len() - i,
    {
        let ghost pre = refs@.take(i + 1);
        assert(pre.drop_last() =~= refs@.take(i as int));
        match g.get_node(refs[i]) {
            Some(n) => {
                out.push((n.el.lat, n.el.lon));
            },
            None => {
                assert(out@ =~= out@ + Seq::<(i64, i64)>::empty());
            },
        }
        i = i + 1;
    }
    assert(refs@.take(i as int) =~= refs@);
    out
}

/// Sum of the latitudes, and of the longitudes, of a list of points.
pub open spec fn sum_lat(p: Seq<(i64, i64)>) -> int
    decreases p.len(),
{
    if p.len() == 0 {
        0
    } else {
        sum_lat(p.drop_last()) + p.last().0
    }
}

pub open spec fn sum_lon(p: Seq<(i64, i64)>) -> int
    decreases p.len(),
{
    if p.len() == 0 {
        0
    } else {
        sum_lon(p.drop_last()) + p.last().1
    }
}

/// Division rounding toward zero, for a positive divisor.
pub open spec fn trunc_div(a: int, b: int) -> int {
    if a >= 0 {
        a / b
    } else {
        -((-a) / b)
    }
}

/// The sums of `pts`, each divided by `n` rounding toward zero.
pub open spec fn mean_point(pts: Seq<(i64, i64)>, n: int) -> (int, int) {
    (trunc_div(sum_lat(pts), n), trunc_div(sum_lon(pts), n))
}

proof fn lemma_div_bound(s: int, k: int, n: int, m: int)
    requires
        0 <= s <= k * m,
        0 <= k <= n,
        0 < n,
        0 <= m,
    ensures
        0 <= s / n <= m,
{
    assert(k * m <= n * m) by (nonlinear_arith)
        requires
            0 <= k <= n,
            0 <= m,
    ;
    assert(s / n <= m) by (nonlinear_arith)
        requires
            0 <= s <= n * m,
            0 < n,
    ;
    assert(0 <= s / n) by (nonlinear_arith)
        requires
            0 <= s,
            0 < n,
    ;
}

fn trunc_div_i128(a: i128, n: i128, k: Ghost<int>) -> (r: i64)
    requires
        0 < n <= 18446744073709551615,
        0 <= k@ <= n,
        -k@ * 9223372036854775808 <= a <= k@ * 9223372036854775807,
    ensures
        r == trunc_div(a as int, n as int),
{
    if a >= 0 {
        proof {
            lemma_div_bound(a as int, k@, n as int, 9223372036854775807);
        }
        (a / n) as i64
    } else {
        proof {
            lemma_div_bound(-a, k@, n as int, 9223372036854775808);
            assert(k@ * 9223372036854775808 <= 18446744073709551615 * 9223372036854775808) by (nonlinear_arith)
                requires
                    0 <= k@ <= 18446744073709551615,
            ;
        }
        let q = (-a) / n;
        (-q) as i64
    }
}

/// The sums of the points' coordinates divided by `n`, rounding toward zero.
/// `None` when `n` is 0.
pub fn mean_of(pts: &Vec<(i64, i64)>, n: usize) -> (r: Option<(i64, i64)>)
    requires
        pts@.len() <= n,
    ensures
        n == 0 ==> r is None,
        n > 0 ==> (r matches Some(m) && (m.0 as int, m.1 as int) == mean_point(pts@, n as int)),
{
    if n == 0 {
        return None;
    }
    let mut la: i128 = 0;
    let mut lo: i128 = 0;
    let mut i: usize = 0;
    while i < pts.len()
        invariant
            i <= pts@.len(),
            pts@.len() <= n,
            la == sum_lat(pts@.take(i as int)),
            lo == sum_lon(pts@.take(i as int)),
            -(i as int) * 9223372036854775808 <= la <= (i as int) * 9223372036854775807,
            -(i as int) * 9223372036854775808 <= lo <= (i as int) * 9223372036854775807,
        decreases pts@.len() - i,
    {
        let ghost pre = pts@.take(i + 1);
        assert(pre.drop_last() =~= pts@.take(i as int));
        let (a, b) = pts[i];
        la = la + a as i128;
        lo = lo + b as i128;
        i = i + 1;
    }
    assert(pts@.take(i as int) =~= pts@);
    let y = trunc_div_i128(la, n as i128, Ghost(i as int));
    let x = trunc_div_i128(lo, n as i128, Ghost(i as int));
    Some((y, x))
}

/// The (lat, lon) of the node members of `members` that resolve.
pub open spec fn member_points(
    g: OsmFile,
    members: Seq<(OsmRelationMemberType, OsmRelationMemberInfo)>,
) -> Seq<(i64, i64)>
    decreases members.len(),
{
    if members.len() == 0 {
        Seq::empty()
    } else {
        let m = members.last();
        member_points(g, members.drop_last()) + (if m.0 == OsmRelationMemberType::Node
            && g.nodes@.contains_key(m.1.ref_id) {
            seq![(g.nodes@[m.1.ref_id].el.lat, g.nodes@[m.1.ref_id].el.lon)]
        } else {
            Seq::empty()
        })
    }
}

/// The coordinates of the node members of a relation that resolve, in order; way
/// and relation members are not expanded.
pub fn relation_node_points(g: &OsmFile, rel: &OsmRelationData) -> (r: Vec<(i64, i64)>)
    ensures
        r@ == member_points(*g, rel.members@),
{
    let mut out: Vec<(i64, i64)> = Vec::new();
    let mut i: usize = 0;
    while i < rel.members.len()
        invariant
            i <= rel.members@.len(),
            out@ == member_points(*g, rel.members@.take(i as int)),
        decreases rel.members@.len() - i,
    {
        let ghost pre = rel.members@.take(i + 1);
        assert(pre.drop_last() =~= rel.members@.take(i as int));
        let (t, info) = &rel.members[i];
        if *t == OsmRelationMemberType::Node {
            match g.get_node(info.ref_id) {
                Some(n) => {
                    out.push((n.el.lat, n.el.lon));
                },
                None => {
                    assert(out@ =~= out@ + Seq::<(i64, i64)>::empty());
                },
            }
        } else {
            assert(out@ =~= out@ + Seq::<(i64, i64)>::empty());
        }
        i = i + 1;
    }
    assert(rel.members@.take(i as int) =~= rel.members@);
    out
}

/// Where a dot or a label of an element goes: a node's own coordinates; for a way
/// the mean of its resolved nodes' coordinates; for a relation the mean of its
/// resolved node members' coordinates; each mean rounds toward zero. `None` for a
/// missing element, or a way or relation without a resolved node.
pub open spec fn anchor_spec(g: OsmFile, ty: OSMElementType, id: i64) -> Option<(int, int)> {
    match ty {
        OSMElementType::Node => if g.nodes@.contains_key(id) {
            Some((g.nodes@[id].el.lat as int, g.nodes@[id].el.lon as int))
        } else {
            None
        },
        OSMElementType::Way => if g.ways@.contains_key(id) && resolved_points(g, g.ways@[id].el.refs@).len() > 0 {
            let pts = resolved_points(g, g.ways@[id].el.refs@);
            Some(mean_point(pts, pts.len() as int))
        } else {
            None
        },
        OSMElementType::Relation => if g.relations@.contains_key(id) && member_points(
            g,
            g.relations@[id].el.members@,
        ).len() > 0 {
            let pts = member_points(g, g.relations@[id].el.members@);
            Some(mean_point(pts, pts.len() as int))
        } else {
            None
        },
    }
}

/// Where a dot or a label of the element of kind `ty` and id `id` goes, as (lat, lon).
pub fn element_anchor(g: &OsmFile, ty: OSMElementType, id: i64) -> (r: Option<(i64, i64)>)
    ensures
        match r {
            Some(p) => anchor_spec(*g, ty, id) == Some((p.0 as int, p.1 as int)),
            None => anchor_spec(*g, ty, id) is None,
        },
{
    match ty {
        OSMElementType::Node => match g.get_node(id) {
            Some(n) => Some((n.el.lat, n.el.lon)),
            None => None,
        },
        OSMElementType::Way => match g.get_way(id) {
            Some(w) => {
                let pts = way_points(g, &w.el.refs);
                mean_of(&pts, pts.len())
            },
            None => None,
        },
        OSMElementType::Relation => match g.get_relation(id) {
            Some(rel) => {
                let pts = relation_node_points(g, &rel.el);
                mean_of(&pts, pts.len())
            },
            None => None,
        },
    }
}


/// The node lists of the way members of `m` that resolve, in member order.
pub open spec fn member_ways(g: OsmFile, m: Seq<(OsmRelationMemberType, OsmRelationMemberInfo)>) -> Seq<
    Seq<i64>,
>
    decreases m.len(),
{
    if m.len() == 0 {
        Seq::empty()
    } else {
        let x = m.last();
        member_ways(g, m.drop_last()) + (if x.0 == OsmRelationMemberType::Way && g.ways@.contains_key(
            x.1.ref_id,
        ) {
            seq![g.ways@[x.1.ref_id].el.refs@]
        } else {
            Seq::empty()
        })
    }
}

/// Way `w` starts or ends at node `p`.
pub open spec fn touches(w: Seq<i64>, p: i64) -> bool {
    w.len() > 0 && (w[0] == p || w.last() == p)
}

/// The first position from `i` on of a way that starts or ends at `p`.
pub open spec fn first_touching(ways: Seq<Seq<i64>>, p: i64, i: int) -> Option<int>
    decreases ways.len() - i,
{
    if i < 0 || i >= ways.len() {
        None
    } else if touches(ways[i], p) {
        Some(i)
    } else {
        first_touching(ways, p, i + 1)
    }
}

proof fn lemma_first_touching(ways: Seq<Seq<i64>>, p: i64, j: int)
    ensures
        first_touching(ways, p, j) matches Some(i) ==> j <= i < ways.len() && touches(ways[i], p),
    decreases ways.len() - j,
{
    if 0 <= j < ways.len() && !touches(ways[j], p) {
        lemma_first_touching(ways, p, j + 1);
    }
}

/// `w` in reverse order.
pub open spec fn reversed(w: Seq<i64>) -> Seq<i64> {
    Seq::new(w.len(), |k: int| w[w.len() - 1 - k])
}

/// What way `w`, which starts or ends at `p`, adds to a ring ending at `p`: its nodes
/// after `p`, read from `p` on.
pub open spec fn continuation(w: Seq<i64>, p: i64) -> Seq<i64> {
    (if w[0] == p {
        w
    } else {
        reversed(w)
    }).drop_first()
}

/// A ring stops growing when it is empty or closed.
pub open spec fn ring_done(r: Seq<i64>) -> bool {
    r.len() == 0 || r[0] == r.last()
}

/// The rings stitched from `ways`, `cur` being the ring under way: a ring grows by
/// the first remaining way that starts or ends at its last node, until it closes or
/// no way fits; then the next ring starts from the first remaining way.
pub open spec fn assemble(cur: Option<Seq<i64>>, ways: Seq<Seq<i64>>) -> Seq<Seq<i64>>
    decreases ways.len(), (if cur is Some {
        1int
    } else {
        0int
    }),
{
    match cur {
        None => if ways.len() == 0 {
            Seq::empty()
        } else {
            assemble(Some(ways[0]), ways.drop_first())
        },
        Some(r) => if ring_done(r) {
            seq![r] + assemble(None, ways)
        } else {
            match first_touching(ways, r.last(), 0) {
                Some(i) => if 0 <= i < ways.len() {
                    assemble(Some(r + continuation(ways[i], r.last())), ways.remove(i))
                } else {
                    seq![r] + assemble(None, ways)
                },
                None => seq![r] + assemble(None, ways),
            }
        },
    }
}

/// The views of a list of node lists.
pub open spec fn lists_view(s: Seq<Vec<i64>>) -> Seq<Seq<i64>> {
    Seq::new(s.len(), |i: int| s[i]@)
}

fn way_lists(g: &OsmFile, rel: &OsmRelationData) -> (r: Vec<Vec<i64>>)
    ensures
        lists_view(r@) == member_ways(*g, rel.members@),
{
    let mut out: Vec<Vec<i64>> = Vec::new();
    let mut i: usize = 0;
    while i < rel.members.len()
        invariant
            i <= rel.members@.len(),
            lists_view(out@) == member_ways(*g, rel.members@.take(i as int)),
        decreases rel.members@.len() - i,
    {
        let ghost pre = rel.members@.take(i + 1);
        assert(pre.drop_last() =~= rel.members@.take(i as int));
        let ghost before = lists_view(out@);
        let (t, info) = &rel.members[i];
        if *t == OsmRelationMemberType::Way {
            match g.get_way(info.ref_id) {
                Some(w) => {
                    out.push(w.el.refs.clone());
                    assert(lists_view(out@) =~= before + seq![w.el.refs@]);
                },
                None => {
                    assert(lists_view(out@) =~= before + Seq::<Seq<i64>>::empty());
                },
            }
        } else {
            assert(lists_view(out@) =~= before + Seq::<Seq<i64>>::empty());
        }
        i = i + 1;
    }
    assert(rel.members@.take(i as int) =~= rel.members@);
    out
}

fn append_continuation(ring: &mut Vec<i64>, w: &Vec<i64>, p: i64)
    requires
        touches(w@, p),
    ensures
        final(ring)@ == old(ring)@ + continuation(w@, p),
{
    let n = w.len();
    let ghost c = continuation(w@, p);
    let ghost start = ring@;
    let mut k: usize = 1;
    if w[0] == p {
        while k < n
            invariant
                n == w@.len(),
                1 <= k <= n,
                w@[0] == p,
                c == continuation(w@, p),
                ring@ == start + c.take(k - 1),
            decreases n - k,
        {
            ring.push(w[k]);
            k = k + 1;
            assert(ring@ =~= start + c.take(k - 1));
        }
    } else {
        while k < n
            invariant
                n == w@.len(),
                1 <= k <= n,
                w@[0] != p,
                c == continuation(w@, p),
                ring@ == start + c.take(k - 1),
            decreases n - k,
        {
            ring.push(w[n - 1 - k]);
            k = k + 1;
            assert(ring@ =~= start + c.take(k - 1));
        }
    }
    assert(c.take(n - 1) =~= c);
}

fn find_touching(ways: &Vec<Vec<i64>>, p: i64) -> (r: Option<usize>)
    ensures
        match r {
            Some(i) => first_touching(lists_view(ways@), p, 0) == Some(i as int) && i < ways@.len(),
            None => first_touching(lists_view(ways@), p, 0) is None,
        },
{
    let ghost lv = lists_view(ways@);
    let mut i: usize = 0;
    while i < ways.len()
        invariant
            i <= ways@.len(),
            lv == lists_view(ways@),
            first_touching(lv, p, 0) == first_touching(lv, p, i as int),
        decreases ways@.len() - i,
    {
        let w = &ways[i];
        if w.len() > 0 && (w[0] == p || w[w.len() - 1] == p) {
            return Some(i);
        }
        i = i + 1;
    }
    None
}

/// The rings of a multipolygon relation, stitched from its way members that resolve.
pub fn relation_to_multipolygon(g: &OsmFile, rel: &OsmRelationData) -> (r: Vec<Vec<i64>>)
    ensures
        lists_view(r@) == assemble(None, member_ways(*g, rel.members@)),
{
    let mut ways = way_lists(g, rel);
    let ghost total = assemble(None, lists_view(ways@));
    let mut res: Vec<Vec<i64>> = Vec::new();
    let mut cur: Option<Vec<i64>> = None;
    assert(lists_view(res@) + total =~= total);
    loop
        invariant
            total == lists_view(res@) + assemble(
                match cur {
                    Some(c) => Some(c@),
                    None => None,
                },
                lists_view(ways@),
            ),
        ensures
            total == lists_view(res@),
        decreases 2 * ways@.len() + (if cur is Some {
            1int
        } else {
            0int
        }),
    {
        let ghost before = lists_view(res@);
        let ghost wv = lists_view(ways@);
        match cur {
            None => {
                if ways.len() == 0 {
                    assert(lists_view(res@) + Seq::<Seq<i64>>::empty() =~= lists_view(res@));
                    break;
                }
                let first = ways.remove(0);
                assert(lists_view(ways@) =~= wv.drop_first());
                cur = Some(first);
            },
            Some(mut ring) => {
                let n = ring.len();
                if n == 0 || ring[0] == ring[n - 1] {
                    let ghost rv = ring@;
                    res.push(ring);
                    assert(lists_view(res@) =~= before.push(rv));
                    assert(before + (seq![rv] + assemble(None, wv)) =~= before.push(rv) + assemble(None, wv));
                    cur = None;
                } else {
                    let last = ring[n - 1];
                    match find_touching(&ways, last) {
                        Some(i) => {
                            proof {
                                lemma_first_touching(wv, last, 0);
                            }
                            let w = ways.remove(i);
                            assert(lists_view(ways@) =~= wv.remove(i as int));
                            append_continuation(&mut ring, &w, last);
                            cur = Some(ring);
                        },
                        None => {
                            let ghost rv = ring@;
                            res.push(ring);
                            assert(lists_view(res@) =~= before.push(rv));
                            assert(before + (seq![rv] + assemble(None, wv)) =~= before.push(rv) + assemble(None, wv));
                            cur = None;
                        },
                    }
                }
            },
        }
    }
    res
}

} // verus!
