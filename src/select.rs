//! The selection interpreter: runs a layer's commands over an ordered selection of
//! graph elements and emits the draw calls in render order.
use vstd::prelude::*;

use crate::graph::{tag_value, OsmFile, OsmRelationMemberType};
use crate::style::{Command, DrawKind, Filter, FilterExpr, FilterType, PatchView, TextPatch};
use crate::wildcard::{wildcard_match, wildcard_spec};

verus! {

broadcast use vstd::std_specs::hash::group_hash_axioms;

#[derive(PartialEq, Eq, Structural, Clone, Copy, Debug)]
pub enum OSMElementType {
    Node,
    Way,
    Relation,
}

/// A selection element: the entity it refers to, the role it had in the relation
/// it was reached through, and its label patch.
pub struct OSMPaintObj<N> {
    pub ty: OSMElementType,
    pub role: Option<String>,
    pub id: i64,
    pub text_patch: TextPatch<N>,
}

/// A selection element as values: kind, role, id, label patch.
pub type ObjView<N> = (OSMElementType, Option<Seq<char>>, i64, PatchView<N>);

/// The patch that overrides nothing.
pub open spec fn no_patch<N>() -> PatchView<N> {
    (None, None, None)
}

impl<N: Copy> OSMPaintObj<N> {
    pub open spec fn view(&self) -> ObjView<N> {
        (self.ty, crate::style::opt_view(self.role), self.id, self.text_patch@)
    }

    pub fn new_node(id: i64) -> (r: Self)
        ensures
            r@ == (OSMElementType::Node, None::<Seq<char>>, id, no_patch::<N>()),
    {
        OSMPaintObj { ty: OSMElementType::Node, role: None, id, text_patch: TextPatch::new() }
    }

    pub fn new_way(id: i64) -> (r: Self)
        ensures
            r@ == (OSMElementType::Way, None::<Seq<char>>, id, no_patch::<N>()),
    {
        OSMPaintObj { ty: OSMElementType::Way, role: None, id, text_patch: TextPatch::new() }
    }

    pub fn new_relation(id: i64) -> (r: Self)
        ensures
            r@ == (OSMElementType::Relation, None::<Seq<char>>, id, no_patch::<N>()),
    {
        OSMPaintObj { ty: OSMElementType::Relation, role: None, id, text_patch: TextPatch::new() }
    }

    /// A copy of this element.
    pub fn duplicate(&self) -> (r: Self)
        ensures
            r@ == self@,
    {
        OSMPaintObj {
            ty: self.ty,
            role: crate::style::copy_opt_string(&self.role),
            id: self.id,
            text_patch: self.text_patch.duplicate(),
        }
    }
}

/// The views of a list of selection elements.
pub open spec fn sel_view<N: Copy>(s: Seq<OSMPaintObj<N>>) -> Seq<ObjView<N>> {
    Seq::new(s.len(), |i: int| s[i]@)
}

/// The value of tag `key` on the entity of kind `ty` and id `id`; `None` where the
/// entity or the tag is missing.
pub open spec fn elem_tag(g: OsmFile, ty: OSMElementType, id: i64, key: Seq<char>) -> Option<
    Seq<char>,
> {
    match ty {
        OSMElementType::Node => if g.nodes@.contains_key(id) {
            tag_value(g.string_table@, g.nodes@[id].tags@, key)
        } else {
            None
        },
        OSMElementType::Way => if g.ways@.contains_key(id) {
            tag_value(g.string_table@, g.ways@[id].tags@, key)
        } else {
            None
        },
        OSMElementType::Relation => if g.relations@.contains_key(id) {
            tag_value(g.string_table@, g.relations@[id].tags@, key)
        } else {
            None
        },
    }
}

/// The value of tag `key` on the entity of kind `ty` and id `id`.
pub fn element_tag<'a>(g: &'a OsmFile, ty: OSMElementType, id: i64, key: &str) -> (r: Option<
    &'a String,
>)
    requires
        g.wf(),
    ensures
        match r {
            Some(v) => elem_tag(*g, ty, id, key@) == Some(v@),
            None => elem_tag(*g, ty, id, key@) is None,
        },
{
    match ty {
        OSMElementType::Node => match g.get_node(id) {
            Some(e) => g.get_tag_value(&e.tags, key),
            None => None,
        },
        OSMElementType::Way => match g.get_way(id) {
            Some(e) => g.get_tag_value(&e.tags, key),
            None => None,
        },
        OSMElementType::Relation => match g.get_relation(id) {
            Some(e) => g.get_tag_value(&e.tags, key),
            None => None,
        },
    }
}

/// The label of an element: its value of tag `field`, replaced by the patch's new
/// text where the patch has one; none where the tag is missing.
pub open spec fn label_of<N>(g: OsmFile, o: ObjView<N>, field: Seq<char>) -> Option<Seq<char>> {
    match elem_tag(g, o.0, o.2, field) {
        Some(v) => match o.3.1 {
            Some(n) => Some(n),
            None => Some(v),
        },
        None => None,
    }
}

/// The text a label of `el` shows.
pub fn label_text<N: Copy>(g: &OsmFile, el: &OSMPaintObj<N>, field: &str) -> (r: Option<String>)
    requires
        g.wf(),
    ensures
        match r {
            Some(t) => label_of(*g, el@, field@) == Some(t@),
            None => label_of(*g, el@, field@) is None,
        },
{
    match element_tag(g, el.ty, el.id, field) {
        Some(v) => match &el.text_patch.rename {
            Some(n) => Some(n.clone()),
            None => Some(v.clone()),
        },
        None => None,
    }
}

/// Whether the element `o` satisfies the filter expression `e`.
pub open spec fn pred_holds<N>(g: OsmFile, o: ObjView<N>, e: FilterExpr) -> bool
    decreases e,
{
    match e {
        FilterExpr::And(a, b) => pred_holds(g, o, *a) && pred_holds(g, o, *b),
        FilterExpr::Or(a, b) => pred_holds(g, o, *a) || pred_holds(g, o, *b),
        FilterExpr::Not(a) => !pred_holds(g, o, *a),
        FilterExpr::Filter(f) => match f {
            Filter::IsNode => o.0 == OSMElementType::Node,
            Filter::IsWay => o.0 == OSMElementType::Way,
            Filter::IsRelation => o.0 == OSMElementType::Relation,
            Filter::Match(key, pat) => match elem_tag(g, o.0, o.2, key@) {
                Some(v) => wildcard_spec(v, pat@),
                None => false,
            },
            Filter::MatchRole(pat) => match o.1 {
                Some(r) => wildcard_spec(r, pat@),
                None => false,
            },
        },
    }
}

/// Whether `paint_obj` satisfies `filter`.
pub fn match_predicate<N: Copy>(
    osm_file: &OsmFile,
    paint_obj: &OSMPaintObj<N>,
    filter: &FilterExpr,
) -> (r: bool)
    requires
        osm_file.wf(),
    ensures
        r == pred_holds(*osm_file, paint_obj@, *filter),
    decreases filter,
{
    match filter {
        FilterExpr::Filter(Filter::IsNode) => paint_obj.ty == OSMElementType::Node,
        FilterExpr::Filter(Filter::IsWay) => paint_obj.ty == OSMElementType::Way,
        FilterExpr::Filter(Filter::IsRelation) => paint_obj.ty == OSMElementType::Relation,
        FilterExpr::Filter(Filter::MatchRole(pat)) => match &paint_obj.role {
            Some(role) => wildcard_match(role.as_str(), pat.as_str()),
            None => false,
        },
        FilterExpr::Filter(Filter::Match(key, pat)) => match element_tag(
            osm_file,
            paint_obj.ty,
            paint_obj.id,
            key.as_str(),
        ) {
            Some(v) => wildcard_match(v.as_str(), pat.as_str()),
            None => false,
        },
        FilterExpr::And(a, b) => match_predicate(osm_file, paint_obj, a) && match_predicate(
            osm_file,
            paint_obj,
            b,
        ),
        FilterExpr::Or(a, b) => match_predicate(osm_file, paint_obj, a) || match_predicate(
            osm_file,
            paint_obj,
            b,
        ),
        FilterExpr::Not(a) => !match_predicate(osm_file, paint_obj, a),
    }
}


/// The elements of `sel` whose predicate value equals `keep`, in order.
pub open spec fn filtered<N>(g: OsmFile, sel: Seq<ObjView<N>>, keep: bool, e: FilterExpr) -> Seq<
    ObjView<N>,
>
    decreases sel.len(),
{
    if sel.len() == 0 {
        Seq::empty()
    } else {
        filtered(g, sel.drop_last(), keep, e) + (if pred_holds(g, sel.last(), e) == keep {
            seq![sel.last()]
        } else {
            Seq::empty()
        })
    }
}

/// The first `n` elements of `sel`, or all of them.
pub open spec fn taken<T>(sel: Seq<T>, n: int) -> Seq<T> {
    if n < sel.len() {
        sel.take(n)
    } else {
        sel
    }
}

/// The patch of the last entry of `offsets` listed for value `v`.
pub open spec fn offset_patch<N>(offsets: Seq<(Seq<char>, PatchView<N>)>, v: Seq<char>) -> Option<
    PatchView<N>,
>
    decreases offsets.len(),
{
    if offsets.len() == 0 {
        None
    } else if offsets.last().0 == v {
        Some(offsets.last().1)
    } else {
        offset_patch(offsets.drop_last(), v)
    }
}

/// An offset table as values.
pub open spec fn offsets_view<N: Copy>(o: Seq<(String, TextPatch<N>)>) -> Seq<
    (Seq<char>, PatchView<N>),
> {
    Seq::new(o.len(), |i: int| (o[i].0@, o[i].1@))
}

/// Element `o` after the offset command for tag `key`: a missing tag reads as empty.
pub open spec fn offset_one<N>(
    g: OsmFile,
    o: ObjView<N>,
    key: Seq<char>,
    offsets: Seq<(Seq<char>, PatchView<N>)>,
) -> ObjView<N> {
    let v = match elem_tag(g, o.0, o.2, key) {
        Some(v) => v,
        None => Seq::empty(),
    };
    match offset_patch(offsets, v) {
        Some(p) => (o.0, o.1, o.2, crate::style::merge_view(o.3, p)),
        None => o,
    }
}

/// The selection after an offset command.
pub open spec fn offset_applied<N>(
    g: OsmFile,
    sel: Seq<ObjView<N>>,
    key: Seq<char>,
    offsets: Seq<(Seq<char>, PatchView<N>)>,
) -> Seq<ObjView<N>> {
    Seq::new(sel.len(), |i: int| offset_one(g, sel[i], key, offsets))
}

/// The element kind of a member kind.
pub open spec fn kind_of_member(t: OsmRelationMemberType) -> OSMElementType {
    match t {
        OsmRelationMemberType::Node => OSMElementType::Node,
        OsmRelationMemberType::Way => OSMElementType::Way,
        OsmRelationMemberType::Relation => OSMElementType::Relation,
    }
}

/// The sub-selection of relation `id`: one element per member, with its role and
/// no patch; empty where the relation is missing.
pub open spec fn member_sel<N>(g: OsmFile, id: i64) -> Seq<ObjView<N>> {
    if g.relations@.contains_key(id) {
        let m = g.relations@[id].el.members@;
        Seq::new(
            m.len(),
            |j: int|
                (
                    kind_of_member(m[j].0),
                    Some(g.string_table@[m[j].1.role_sid]),
                    m[j].1.ref_id,
                    no_patch::<N>(),
                ),
        )
    } else {
        Seq::empty()
    }
}

proof fn lemma_sel_view_push<N: Copy>(s: Seq<OSMPaintObj<N>>, x: OSMPaintObj<N>)
    ensures
        sel_view(s.push(x)) == sel_view(s).push(x@),
{
    assert(sel_view(s.push(x)) =~= sel_view(s).push(x@));
}

/// Keeps, or drops, the elements that satisfy `e`.
pub fn filter_selection<N: Copy>(
    g: &OsmFile,
    sel: &Vec<OSMPaintObj<N>>,
    keep: bool,
    e: &FilterExpr,
) -> (r: Vec<OSMPaintObj<N>>)
    requires
        g.wf(),
    ensures
        sel_view(r@) == filtered(*g, sel_view(sel@), keep, *e),
{
    let mut out: Vec<OSMPaintObj<N>> = Vec::new();
    let mut i: usize = 0;
    while i < sel.len()
        invariant
            g.wf(),
            i <= sel@.len(),
            sel_view(out@) == filtered(*g, sel_view(sel@).take(i as int), keep, *e),
        decreases sel@.len() - i,
    {
        let ghost before = sel_view(out@);
        let o = &sel[i];
        let ghost pre = sel_view(sel@).take(i + 1);
        proof {
            assert(pre.drop_last() =~= sel_view(sel@).take(i as int));
            assert(pre.last() == o@);
        }
        if match_predicate(g, o, e) == keep {
            let ghost ob = out@;
            let d = o.duplicate();
            out.push(d);
            proof {
                lemma_sel_view_push(ob, d);
            }
            assert(sel_view(out@) =~= before + seq![o@]);
        } else {
            assert(sel_view(out@) =~= before + Seq::<ObjView<N>>::empty());
        }
        i = i + 1;
    }
    assert(sel_view(sel@).take(i as int) =~= sel_view(sel@));
    out
}

/// A copy of a selection.
pub fn copy_selection<N: Copy>(sel: &Vec<OSMPaintObj<N>>) -> (r: Vec<OSMPaintObj<N>>)
    ensures
        sel_view(r@) == sel_view(sel@),
{
    let mut out: Vec<OSMPaintObj<N>> = Vec::new();
    let mut i: usize = 0;
    while i < sel.len()
        invariant
            i <= sel@.len(),
            sel_view(out@) == sel_view(sel@).take(i as int),
        decreases sel@.len() - i,
    {
        let ghost before = out@;
        let d = sel[i].duplicate();
        out.push(d);
        proof {
            lemma_sel_view_push(before, d);
        }
        i = i + 1;
        assert(sel_view(out@) =~= sel_view(sel@).take(i as int));
    }
    assert(sel_view(sel@).take(i as int) =~= sel_view(sel@));
    out
}

fn find_offset<'a, N: Copy>(offsets: &'a Vec<(String, TextPatch<N>)>, v: &String) -> (r: Option<
    &'a TextPatch<N>,
>)
    ensures
        match r {
            Some(p) => offset_patch(offsets_view(offsets@), v@) == Some(p@),
            None => offset_patch(offsets_view(offsets@), v@) is None,
        },
{
    let mut i: usize = offsets.len();
    assert(offsets_view(offsets@).take(i as int) =~= offsets_view(offsets@));
    while i > 0
        invariant
            i <= offsets@.len(),
            offset_patch(offsets_view(offsets@), v@) == offset_patch(
                offsets_view(offsets@).take(i as int),
                v@,
            ),
        decreases i,
    {
        let ghost pre = offsets_view(offsets@).take(i as int);
        assert(pre.drop_last() =~= offsets_view(offsets@).take(i - 1));
        if offsets[i - 1].0 == *v {
            return Some(&offsets[i - 1].1);
        }
        i = i - 1;
    }
    None
}

/// The selection after an offset command for tag `key`.
pub fn apply_offsets<N: Copy>(
    g: &OsmFile,
    sel: &Vec<OSMPaintObj<N>>,
    key: &String,
    offsets: &Vec<(String, TextPatch<N>)>,
) -> (r: Vec<OSMPaintObj<N>>)
    requires
        g.wf(),
    ensures
        sel_view(r@) == offset_applied(*g, sel_view(sel@), key@, offsets_view(offsets@)),
{
    let ghost want = offset_applied(*g, sel_view(sel@), key@, offsets_view(offsets@));
    let empty = String::new();
    let mut out: Vec<OSMPaintObj<N>> = Vec::new();
    let mut i: usize = 0;
    while i < sel.len()
        invariant
            g.wf(),
            i <= sel@.len(),
            empty@ == Seq::<char>::empty(),
            want == offset_applied(*g, sel_view(sel@), key@, offsets_view(offsets@)),
            sel_view(out@) == want.take(i as int),
        decreases sel@.len() - i,
    {
        let o = &sel[i];
        let v = match element_tag(g, o.ty, o.id, key.as_str()) {
            Some(v) => v,
            None => &empty,
        };
        let n = match find_offset(offsets, v) {
            Some(p) => OSMPaintObj {
                ty: o.ty,
                role: crate::style::copy_opt_string(&o.role),
                id: o.id,
                text_patch: o.text_patch.merge(p.duplicate()),
            },
            None => o.duplicate(),
        };
        assert(n@ == want[i as int]);
        let ghost ob = out@;
        out.push(n);
        proof {
            lemma_sel_view_push(ob, n);
        }
        i = i + 1;
        assert(sel_view(out@) =~= want.take(i as int));
    }
    assert(want.take(i as int) =~= want);
    out
}

/// The sub-selection of relation `id`.
pub fn member_selection<N: Copy>(g: &OsmFile, id: i64) -> (r: Vec<OSMPaintObj<N>>)
    requires
        g.wf(),
    ensures
        sel_view(r@) == member_sel::<N>(*g, id),
{
    let mut out: Vec<OSMPaintObj<N>> = Vec::new();
    match g.get_relation(id) {
        None => {
            assert(sel_view(out@) =~= member_sel::<N>(*g, id));
            out
        },
        Some(rel) => {
            let ghost want = member_sel::<N>(*g, id);
            let mut j: usize = 0;
            while j < rel.el.members.len()
                invariant
                    g.wf(),
                    g.relations@.contains_key(id),
                    *rel == g.relations@[id],
                    j <= rel.el.members@.len(),
                    want == member_sel::<N>(*g, id),
                    sel_view(out@) == want.take(j as int),
                decreases rel.el.members@.len() - j,
            {
                let (t, info) = &rel.el.members[j];
                let ty = match t {
                    OsmRelationMemberType::Node => OSMElementType::Node,
                    OsmRelationMemberType::Way => OSMElementType::Way,
                    OsmRelationMemberType::Relation => OSMElementType::Relation,
                };
                assert(crate::graph::roles_interned(rel.el.members@, g.string_table@));
                assert(g.string_table@.contains_key(rel.el.members@[j as int].1.role_sid));
                let role = match g.get_string(info.role_sid) {
                    Some(s) => s.clone(),
                    None => String::new(),
                };
                let n = OSMPaintObj { ty, role: Some(role), id: info.ref_id, text_patch: TextPatch::new() };
                assert(n@ == want[j as int]);
                let ghost ob = out@;
                out.push(n);
                proof {
                    lemma_sel_view_push(ob, n);
                }
                j = j + 1;
                assert(sel_view(out@) =~= want.take(j as int));
            }
            assert(want.take(j as int) =~= want);
            out
        },
    }
}


/// One draw call: the primitive, its arguments, and the elements to draw in order.
pub struct DrawOp<'a, A, N> {
    pub kind: &'a DrawKind,
    pub args: &'a A,
    pub elements: Vec<OSMPaintObj<N>>,
}

/// A draw call as values.
pub type OpView<A, N> = (DrawKind, A, Seq<ObjView<N>>);

impl<'a, A, N: Copy> DrawOp<'a, A, N> {
    pub open spec fn view(&self) -> OpView<A, N> {
        (*self.kind, *self.args, sel_view(self.elements@))
    }
}

/// The views of a list of draw calls.
pub open spec fn ops_view<'a, A, N: Copy>(s: Seq<DrawOp<'a, A, N>>) -> Seq<OpView<A, N>> {
    Seq::new(s.len(), |i: int| s[i]@)
}

/// The draw calls that commands `i..` of `cmds` emit, run over selection `sel`.
pub open spec fn run_from<A, N: Copy>(g: OsmFile, cmds: Vec<Command<A, N>>, i: int, sel: Seq<ObjView<N>>) -> Seq<
    OpView<A, N>,
>
    decreases cmds, 0int, cmds@.len() - i,
{
    if i < 0 || i >= cmds@.len() {
        Seq::empty()
    } else {
        match cmds[i] {
            Command::Take(n) => run_from(g, cmds, i + 1, taken(sel, n as int)),
            Command::Filter(t, e) => run_from(
                g,
                cmds,
                i + 1,
                filtered(g, sel, t == FilterType::Keep, e),
            ),
            Command::DrawFunc { ty, args } => seq![(ty, args, sel)] + run_from(g, cmds, i + 1, sel),
            Command::OffsetText { key, offsets } => run_from(
                g,
                cmds,
                i + 1,
                offset_applied(g, sel, key@, offsets_view(offsets@)),
            ),
            Command::Sub(sub) => run_subs(g, sub, sel, 0) + run_from(g, cmds, i + 1, sel),
        }
    }
}

/// The draw calls that `sub` emits over the members of each relation of `sel` from
/// position `j` on; other elements, and missing relations, emit nothing.
pub open spec fn run_subs<A, N: Copy>(g: OsmFile, sub: Vec<Command<A, N>>, sel: Seq<ObjView<N>>, j: int) -> Seq<
    OpView<A, N>,
>
    decreases sub, 1int, sel.len() - j,
{
    if j < 0 || j >= sel.len() {
        Seq::empty()
    } else {
        (if sel[j].0 == OSMElementType::Relation && g.relations@.contains_key(sel[j].2) {
            run_from(g, sub, 0, member_sel::<N>(g, sel[j].2))
        } else {
            Seq::empty()
        }) + run_subs(g, sub, sel, j + 1)
    }
}

proof fn lemma_ops_push<'a, A, N: Copy>(s: Seq<DrawOp<'a, A, N>>, x: DrawOp<'a, A, N>)
    ensures
        ops_view(s.push(x)) == ops_view(s).push(x@),
{
    assert(ops_view(s.push(x)) =~= ops_view(s).push(x@));
}

/// Runs `commands` over `selection`, appending the draw calls they emit to `out`.
pub fn paint_list<'a, A, N: Copy>(
    g: &OsmFile,
    selection: Vec<OSMPaintObj<N>>,
    commands: &'a Vec<Command<A, N>>,
    out: &mut Vec<DrawOp<'a, A, N>>,
)
    requires
        g.wf(),
    ensures
        ops_view(final(out)@) == ops_view(old(out)@) + run_from(
            *g,
            *commands,
            0,
            sel_view(selection@),
        ),
    decreases *commands, 0int, 0int,
{
    let ghost total = ops_view(old(out)@) + run_from(*g, *commands, 0, sel_view(selection@));
    let mut sel = selection;
    let mut i: usize = 0;
    while i < commands.len()
        invariant
            g.wf(),
            i <= commands@.len(),
            total == ops_view(out@) + run_from(*g, *commands, i as int, sel_view(sel@)),
        decreases commands@.len() - i,
    {
        let ghost sv = sel_view(sel@);
        let ghost before = ops_view(out@);
        match &commands[i] {
            Command::Filter(t, e) => {
                let keep = match t {
                    FilterType::Keep => true,
                    FilterType::Remove => false,
                };
                sel = filter_selection(g, &sel, keep, e);
            },
            Command::Take(n) => {
                sel.truncate(*n);
                assert(sel_view(sel@) =~= taken(sv, *n as int));
            },
            Command::DrawFunc { ty, args } => {
                let op = DrawOp { kind: ty, args, elements: copy_selection(&sel) };
                let ghost ob = out@;
                out.push(op);
                proof {
                    lemma_ops_push(ob, op);
                    assert(ops_view(out@) + run_from(*g, *commands, i + 1, sv) =~= before + (
                    seq![op@] + run_from(*g, *commands, i + 1, sv)));
                }
            },
            Command::OffsetText { key, offsets } => {
                sel = apply_offsets(g, &sel, key, offsets);
            },
            Command::Sub(sub) => {
                proof {
                    assert(decreases_to!(*commands => commands[i as int]));
                }
                paint_sub(g, &sel, sub, out);
                proof {
                    let a = run_subs(*g, *sub, sv, 0);
                    let b = run_from(*g, *commands, i + 1, sv);
                    assert(before + a + b =~= before + (a + b));
                }
            },
        }
        i = i + 1;
    }
    assert(ops_view(out@) + Seq::<OpView<A, N>>::empty() =~= ops_view(out@));
}

/// Runs `sub` over the members of each relation of `sel`, in order, appending the
/// draw calls to `out`.
pub fn paint_sub<'a, A, N: Copy>(
    g: &OsmFile,
    sel: &Vec<OSMPaintObj<N>>,
    sub: &'a Vec<Command<A, N>>,
    out: &mut Vec<DrawOp<'a, A, N>>,
)
    requires
        g.wf(),
    ensures
        ops_view(final(out)@) == ops_view(old(out)@) + run_subs(*g, *sub, sel_view(sel@), 0),
    decreases *sub, 1int, sel@.len(),
{
    let ghost sv = sel_view(sel@);
    let ghost total = ops_view(old(out)@) + run_subs(*g, *sub, sv, 0);
    let mut j: usize = 0;
    while j < sel.len()
        invariant
            g.wf(),
            j <= sel@.len(),
            sv == sel_view(sel@),
            total == ops_view(out@) + run_subs(*g, *sub, sv, j as int),
        decreases sel@.len() - j,
    {
        let ghost before = ops_view(out@);
        let el = &sel[j];
        if el.ty == OSMElementType::Relation && g.get_relation(el.id).is_some() {
            let members = member_selection(g, el.id);
            paint_list(g, members, sub, out);
        }
        proof {
            let a = if sv[j as int].0 == OSMElementType::Relation && g.relations@.contains_key(
                sv[j as int].2,
            ) {
                run_from(*g, *sub, 0, member_sel::<N>(*g, sv[j as int].2))
            } else {
                Seq::empty()
            };
            let b = run_subs(*g, *sub, sv, j + 1);
            assert(before + a + b =~= before + (a + b));
            assert(ops_view(out@) == before + a);
        }
        j = j + 1;
    }
    assert(ops_view(out@) + Seq::<OpView<A, N>>::empty() =~= ops_view(out@));
}


/// Elements of kind `ty` for each id of `ids`, without role or patch.
pub open spec fn fresh_sel<N>(ty: OSMElementType, ids: Seq<i64>) -> Seq<ObjView<N>> {
    Seq::new(ids.len(), |i: int| (ty, None::<Seq<char>>, ids[i], no_patch::<N>()))
}

/// The selection a layer starts from: every node, then every way, then every
/// relation, each kind in order of first appearance in the document.
pub open spec fn initial_sel<N>(g: OsmFile) -> Seq<ObjView<N>> {
    fresh_sel(OSMElementType::Node, g.nodes.ids()) + fresh_sel(OSMElementType::Way, g.ways.ids())
        + fresh_sel(OSMElementType::Relation, g.relations.ids())
}

fn push_fresh<N: Copy>(sel: &mut Vec<OSMPaintObj<N>>, ty: OSMElementType, ids: &Vec<i64>)
    ensures
        sel_view(final(sel)@) == sel_view(old(sel)@) + fresh_sel::<N>(ty, ids@),
{
    let ghost start = sel_view(sel@);
    let mut i: usize = 0;
    while i < ids.len()
        invariant
            i <= ids@.len(),
            sel_view(sel@) == start + fresh_sel::<N>(ty, ids@.take(i as int)),
        decreases ids@.len() - i,
    {
        let o = match ty {
            OSMElementType::Node => OSMPaintObj::new_node(ids[i]),
            OSMElementType::Way => OSMPaintObj::new_way(ids[i]),
            OSMElementType::Relation => OSMPaintObj::new_relation(ids[i]),
        };
        let ghost ob = sel@;
        sel.push(o);
        proof {
            lemma_sel_view_push(ob, o);
        }
        i = i + 1;
        assert(sel_view(sel@) =~= start + fresh_sel::<N>(ty, ids@.take(i as int)));
    }
    assert(ids@.take(i as int) =~= ids@);
}

/// The selection a layer starts from.
pub fn initial_selection<N: Copy>(g: &OsmFile) -> (r: Vec<OSMPaintObj<N>>)
    ensures
        sel_view(r@) == initial_sel::<N>(*g),
{
    let mut sel: Vec<OSMPaintObj<N>> = Vec::new();
    assert(sel_view(sel@) =~= Seq::<ObjView<N>>::empty());
    push_fresh(&mut sel, OSMElementType::Node, g.nodes.id_list());
    push_fresh(&mut sel, OSMElementType::Way, g.ways.id_list());
    push_fresh(&mut sel, OSMElementType::Relation, g.relations.id_list());
    assert(Seq::<ObjView<N>>::empty() + fresh_sel::<N>(OSMElementType::Node, g.nodes.ids())
        =~= fresh_sel::<N>(OSMElementType::Node, g.nodes.ids()));
    sel
}

/// The draw calls of one layer's commands, in render order.
pub fn paint<'a, A, N: Copy>(g: &OsmFile, commands: &'a Vec<Command<A, N>>) -> (r: Vec<
    DrawOp<'a, A, N>,
>)
    requires
        g.wf(),
    ensures
        ops_view(r@) == run_from(*g, *commands, 0, initial_sel::<N>(*g)),
{
    let sel = initial_selection(g);
    let mut out: Vec<DrawOp<'a, A, N>> = Vec::new();
    assert(ops_view(out@) =~= Seq::<OpView<A, N>>::empty());
    paint_list(g, sel, commands, &mut out);
    assert(ops_view(out@) =~= run_from(*g, *commands, 0, initial_sel::<N>(*g)));
    out
}

/// A filter keeps exactly the elements whose predicate value is `keep`, in their
/// order: an element is in the result iff it is in the selection with that value.
pub proof fn lemma_filter_members<N>(
    g: OsmFile,
    sel: Seq<ObjView<N>>,
    keep: bool,
    e: FilterExpr,
    o: ObjView<N>,
)
    ensures
        filtered(g, sel, keep, e).contains(o) <==> sel.contains(o) && pred_holds(g, o, e) == keep,
        filtered(g, sel, keep, e).len() <= sel.len(),
    decreases sel.len(),
{
    if sel.len() > 0 {
        lemma_filter_members(g, sel.drop_last(), keep, e, o);
        let f0 = filtered(g, sel.drop_last(), keep, e);
        let tail = if pred_holds(g, sel.last(), e) == keep {
            seq![sel.last()]
        } else {
            Seq::<ObjView<N>>::empty()
        };
        assert(filtered(g, sel, keep, e) == f0 + tail);
        assert(tail.contains(o) <==> (pred_holds(g, sel.last(), e) == keep && sel.last() == o)) by {
            if pred_holds(g, sel.last(), e) == keep && sel.last() == o {
                assert(tail[0] == o);
            }
        }
        assert((f0 + tail).contains(o) <==> f0.contains(o) || tail.contains(o)) by {
            if (f0 + tail).contains(o) {
                let j = choose|j: int| 0 <= j < (f0 + tail).len() && (f0 + tail)[j] == o;
                if j >= f0.len() {
                    assert(tail[j - f0.len()] == o);
                }
            }
            if f0.contains(o) {
                let j = choose|j: int| 0 <= j < f0.len() && f0[j] == o;
                assert((f0 + tail)[j] == o);
            }
            if tail.contains(o) {
                assert((f0 + tail)[f0.len() as int] == o);
            }
        }
        assert(sel.contains(o) <==> sel.drop_last().contains(o) || sel.last() == o) by {
            if sel.contains(o) {
                let j = choose|j: int| 0 <= j < sel.len() && sel[j] == o;
                if j < sel.len() - 1 {
                    assert(sel.drop_last()[j] == o);
                }
            }
            if sel.drop_last().contains(o) {
                let j = choose|j: int| 0 <= j < sel.len() - 1 && sel.drop_last()[j] == o;
                assert(sel[j] == o);
            }
            if sel.last() == o {
                assert(sel[sel.len() - 1] == o);
            }
        }
    } else {
        assert(filtered(g, sel, keep, e) =~= Seq::<ObjView<N>>::empty());
    }
}

/// Filtering twice with the same command changes nothing the second time.
pub proof fn lemma_filter_idempotent<N>(g: OsmFile, sel: Seq<ObjView<N>>, keep: bool, e: FilterExpr)
    ensures
        filtered(g, filtered(g, sel, keep, e), keep, e) == filtered(g, sel, keep, e),
    decreases sel.len(),
{
    if sel.len() > 0 {
        lemma_filter_idempotent(g, sel.drop_last(), keep, e);
        let f0 = filtered(g, sel.drop_last(), keep, e);
        if pred_holds(g, sel.last(), e) == keep {
            let f = f0.push(sel.last());
            assert(filtered(g, sel, keep, e) =~= f);
            assert(f.drop_last() =~= f0);
            assert(filtered(g, f, keep, e) =~= f0 + seq![sel.last()]);
        } else {
            assert(filtered(g, sel, keep, e) =~= f0);
        }
    }
}

/// `And(IsWay, Match(key, "*"))` holds exactly of the ways that carry tag `key`.
pub proof fn lemma_ways_with_key<N>(g: OsmFile, o: ObjView<N>, key: String, star: String)
    requires
        star@ == seq!['*'],
    ensures
        pred_holds(
            g,
            o,
            FilterExpr::And(
                Box::new(FilterExpr::Filter(Filter::IsWay)),
                Box::new(FilterExpr::Filter(Filter::Match(key, star))),
            ),
        ) <==> o.0 == OSMElementType::Way && elem_tag(g, o.0, o.2, key@) is Some,
{
    reveal_with_fuel(pred_holds, 2);
    let a = FilterExpr::Filter(Filter::IsWay);
    let b = FilterExpr::Filter(Filter::Match(key, star));
    assert(pred_holds(g, o, a) <==> o.0 == OSMElementType::Way);
    match elem_tag(g, o.0, o.2, key@) {
        Some(v) => {
            crate::wildcard::lemma_star_matches_all(v);
            assert(pred_holds(g, o, b));
        },
        None => {
            assert(!pred_holds(g, o, b));
        },
    }
}

/// `Take(n)` keeps the first `n` elements in order, and is a no-op when `n` is at
/// least the length of the selection.
pub proof fn lemma_take_prefix<T>(sel: Seq<T>, n: int)
    requires
        0 <= n,
    ensures
        n >= sel.len() ==> taken(sel, n) == sel,
        n < sel.len() ==> taken(sel, n).len() == n,
        forall|i: int| 0 <= i < taken(sel, n).len() ==> #[trigger] taken(sel, n)[i] == sel[i],
{
}

/// The test a filter command applies to each element.
pub open spec fn keeps<N>(g: OsmFile, keep: bool, e: FilterExpr) -> spec_fn(ObjView<N>) -> bool {
    |o: ObjView<N>| pred_holds(g, o, e) == keep
}

/// A filter command is the stable filter of the selection by the predicate: which
/// elements stay depends on each element alone, and their order is kept.
pub proof fn lemma_filter_is_seq_filter<N>(g: OsmFile, sel: Seq<ObjView<N>>, keep: bool, e: FilterExpr)
    ensures
        filtered(g, sel, keep, e) == sel.filter(keeps::<N>(g, keep, e)),
    decreases sel.len(),
{
    if sel.len() > 0 {
        lemma_filter_is_seq_filter(g, sel.drop_last(), keep, e);
        let f0 = filtered(g, sel.drop_last(), keep, e);
        let p = keeps::<N>(g, keep, e);
        reveal(Seq::filter);
        assert(p(sel.last()) == (pred_holds(g, sel.last(), e) == keep));
        assert(sel.filter(p) == (if p(sel.last()) {
            sel.drop_last().filter(p).push(sel.last())
        } else {
            sel.drop_last().filter(p)
        }));
        if pred_holds(g, sel.last(), e) == keep {
            assert(f0 + seq![sel.last()] =~= f0.push(sel.last()));
        } else {
            assert(f0 + Seq::<ObjView<N>>::empty() =~= f0);
        }
    }
}

} // verus!
