use osm_render::decode::{read_osm_nodes, read_osm_relations, read_osm_ways, PbNode, PbRelation, PbWay};
use osm_render::geometry::{element_anchor, mean_of, relation_to_multipolygon, way_points};
use osm_render::graph::OsmFile;
use osm_render::select::{
    element_tag, initial_selection, label_text, match_predicate, paint, OSMElementType, OSMPaintObj,
};
use osm_render::style::{Color, Command, DrawKind, Filter, FilterExpr, FilterType, TextPatch};
use osm_render::wildcard::{wildcard_match, wildcard_pattern};

type Cmd = Command<u32, f64>;

fn strings(words: &[&str]) -> Vec<String> {
    words.iter().map(|w| w.to_string()).collect()
}

/// Nodes 1..=4, ways 10 (highway) and 11 (building), 12 (highway, footway),
/// relation 20 with ways 10 and 13 and node 1.
fn sample() -> OsmFile {
    let mut f = OsmFile::new();
    let t = strings(&["", "highway", "residential", "building", "yes", "name", "Foo", "outer", "footway", "type", "multipolygon"]);
    let nodes = vec![
        PbNode { id: 1, keys: vec![5], vals: vec![6], lat: 100, lon: 200 },
        PbNode { id: 2, keys: vec![], vals: vec![], lat: 300, lon: 400 },
        PbNode { id: 3, keys: vec![], vals: vec![], lat: 500, lon: 600 },
        PbNode { id: 4, keys: vec![], vals: vec![], lat: -700, lon: -800 },
    ];
    read_osm_nodes(&mut f, &t, &nodes).unwrap();
    let ways = vec![
        PbWay { id: 10, keys: vec![1], vals: vec![2], refs: vec![1, 1, 1] },
        PbWay { id: 11, keys: vec![3], vals: vec![4], refs: vec![3, 1] },
        PbWay { id: 12, keys: vec![1, 5], vals: vec![8, 6], refs: vec![4, 95] },
        PbWay { id: 13, keys: vec![], vals: vec![], refs: vec![3, 1, -3] },
    ];
    read_osm_ways(&mut f, &t, &ways).unwrap();
    let rels = vec![PbRelation {
        id: 20,
        keys: vec![9],
        vals: vec![10],
        roles_sid: vec![7, 7, 0],
        memids: vec![10, 3, -12],
        types: vec![1, 1, 0],
    }];
    read_osm_relations(&mut f, &t, &rels).unwrap();
    f
}

fn s(x: &str) -> String {
    x.to_string()
}

fn ids(elements: &[OSMPaintObj<f64>]) -> Vec<i64> {
    elements.iter().map(|e| e.id).collect()
}

fn is_way() -> FilterExpr {
    FilterExpr::Filter(Filter::IsWay)
}

#[test]
fn wildcard_star_suffix() {
    assert!(wildcard_match("residential", "resident*"));
    assert!(!wildcard_match("residentia", "resident*l"));
    assert!(wildcard_match("residential", "*dent*"));
}

#[test]
fn wildcard_question_mark_is_a_regex_metacharacter() {
    assert!(!wildcard_match("residential", "res?dential"));
    assert!(wildcard_match("redential", "res?dential"));
    assert!(wildcard_match("primary", "primary|secondary"));
    assert!(wildcard_match("secondary", "primary|secondary"));
}

#[test]
fn wildcard_plain_patterns_match_by_equality() {
    assert!(wildcard_match("a.c", "a.c"));
    assert!(!wildcard_match("abc", "a.c"));
    assert!(!wildcard_match("residential", "resident"));
}

#[test]
fn wildcard_lone_star_matches_everything() {
    for x in ["", "*", "anything", "a|b[c"] {
        assert!(wildcard_match(x, "*"));
    }
}

#[test]
fn wildcard_invalid_expression_matches_nothing() {
    assert!(!wildcard_match("a", "[a"));
}

#[test]
fn wildcard_pattern_is_anchored() {
    assert_eq!(wildcard_pattern("resident*"), "^resident.*$");
    assert_eq!(wildcard_pattern("a*b*"), "^a.*b.*$");
    assert_eq!(wildcard_pattern(""), "^$");
}

#[test]
fn initial_selection_orders_kinds() {
    let f = sample();
    let sel: Vec<OSMPaintObj<f64>> = initial_selection(&f);
    assert_eq!(ids(&sel), vec![1, 2, 3, 4, 10, 11, 12, 13, 20]);
    assert_eq!(sel[4].ty, OSMElementType::Way);
    assert_eq!(sel[8].ty, OSMElementType::Relation);
}

#[test]
fn filter_keeps_ways_with_key() {
    let f = sample();
    let expr = FilterExpr::And(
        Box::new(is_way()),
        Box::new(FilterExpr::Filter(Filter::Match(s("highway"), s("*")))),
    );
    let cmds: Vec<Cmd> = vec![
        Command::Filter(FilterType::Keep, expr),
        Command::DrawFunc { ty: DrawKind::Dot, args: 1 },
    ];
    let ops = paint(&f, &cmds);
    assert_eq!(ops.len(), 1);
    assert_eq!(ids(&ops[0].elements), vec![10, 12]);
    assert_eq!(*ops[0].args, 1);
}

#[test]
fn filter_remove_and_not() {
    let f = sample();
    let cmds: Vec<Cmd> = vec![
        Command::Filter(FilterType::Remove, FilterExpr::Not(Box::new(is_way()))),
        Command::Filter(
            FilterType::Keep,
            FilterExpr::Or(
                Box::new(FilterExpr::Filter(Filter::Match(s("building"), s("yes")))),
                Box::new(FilterExpr::Filter(Filter::Match(s("highway"), s("foot*")))),
            ),
        ),
        Command::DrawFunc { ty: DrawKind::Outline, args: 0 },
    ];
    let ops = paint(&f, &cmds);
    assert_eq!(ids(&ops[0].elements), vec![11, 12]);
}

#[test]
fn filter_twice_is_filter_once() {
    let f = sample();
    let expr = || FilterExpr::Filter(Filter::Match(s("name"), s("F*")));
    let once: Vec<Cmd> = vec![
        Command::Filter(FilterType::Keep, expr()),
        Command::DrawFunc { ty: DrawKind::Text, args: 0 },
    ];
    let twice: Vec<Cmd> = vec![
        Command::Filter(FilterType::Keep, expr()),
        Command::Filter(FilterType::Keep, expr()),
        Command::DrawFunc { ty: DrawKind::Text, args: 0 },
    ];
    let a = paint(&f, &once);
    let b = paint(&f, &twice);
    assert_eq!(ids(&a[0].elements), vec![1, 12]);
    assert_eq!(ids(&a[0].elements), ids(&b[0].elements));
}

#[test]
fn take_keeps_prefix() {
    let f = sample();
    let cmds: Vec<Cmd> = vec![
        Command::Filter(FilterType::Keep, FilterExpr::Not(Box::new(FilterExpr::Filter(Filter::IsRelation)))),
        Command::Take(5),
        Command::DrawFunc { ty: DrawKind::Dot, args: 0 },
        Command::Take(2),
        Command::DrawFunc { ty: DrawKind::Dot, args: 1 },
        Command::Take(10),
        Command::DrawFunc { ty: DrawKind::Dot, args: 2 },
    ];
    let ops = paint(&f, &cmds);
    assert_eq!(ids(&ops[0].elements), vec![1, 2, 3, 4, 10]);
    assert_eq!(ids(&ops[1].elements), vec![1, 2]);
    assert_eq!(ids(&ops[2].elements), vec![1, 2]);
}

#[test]
fn sub_runs_over_relation_members() {
    let f = sample();
    let cmds: Vec<Cmd> = vec![
        Command::Filter(FilterType::Keep, FilterExpr::Filter(Filter::IsRelation)),
        Command::DrawFunc { ty: DrawKind::Polyfill, args: 0 },
        Command::Sub(vec![
            Command::Filter(FilterType::Keep, FilterExpr::Filter(Filter::MatchRole(s("out*")))),
            Command::DrawFunc { ty: DrawKind::Outline, args: 1 },
        ]),
        Command::DrawFunc { ty: DrawKind::Unknown(s("Blur")), args: 2 },
    ];
    let ops = paint(&f, &cmds);
    assert_eq!(ops.len(), 3);
    assert_eq!(ids(&ops[0].elements), vec![20]);
    assert_eq!(ids(&ops[1].elements), vec![10, 13]);
    assert_eq!(ops[1].elements[0].role.as_deref(), Some("outer"));
    assert_eq!(ops[1].elements[1].ty, OSMElementType::Way);
    assert!(matches!(ops[2].kind, DrawKind::Unknown(n) if n == "Blur"));
}

#[test]
fn role_filter_is_false_without_role() {
    let f = sample();
    let o: OSMPaintObj<f64> = OSMPaintObj::new_way(10);
    assert!(!match_predicate(&f, &o, &FilterExpr::Filter(Filter::MatchRole(s("*")))));
    assert!(match_predicate(&f, &o, &is_way()));
}

#[test]
fn offset_text_merges_patches() {
    let f = sample();
    let p1 = TextPatch { offset: Some((1.0, 2.0)), rename: None, scale: Some(3.0) };
    let p2 = TextPatch { offset: None, rename: Some(s("Bar")), scale: None };
    let cmds: Vec<Cmd> = vec![
        Command::Filter(FilterType::Keep, FilterExpr::Filter(Filter::IsNode)),
        Command::OffsetText { key: s("name"), offsets: vec![(s("Foo"), p1)] },
        Command::OffsetText { key: s("name"), offsets: vec![(s("Foo"), p2), (s(""), TextPatch::new())] },
        Command::DrawFunc { ty: DrawKind::Text, args: 0 },
    ];
    let ops = paint(&f, &cmds);
    let e = &ops[0].elements;
    assert_eq!(e[0].text_patch.offset, Some((1.0, 2.0)));
    assert_eq!(e[0].text_patch.rename.as_deref(), Some("Bar"));
    assert_eq!(e[0].text_patch.scale, Some(3.0));
    assert_eq!(e[1].text_patch.offset, None);
    assert_eq!(e[1].text_patch.rename, None);
}

#[test]
fn text_patch_merge_is_fieldwise() {
    let a: TextPatch<f64> = TextPatch { offset: Some((1.0, 1.0)), rename: Some(s("A")), scale: None };
    let b = TextPatch { offset: None, rename: Some(s("B")), scale: Some(2.0) };
    let m = a.merge(b);
    assert_eq!(m.offset, Some((1.0, 1.0)));
    assert_eq!(m.rename.as_deref(), Some("B"));
    assert_eq!(m.scale, Some(2.0));
    let n: TextPatch<f64> = TextPatch::new();
    assert_eq!(n.offset, None);
}

#[test]
fn multipolygon_closes_shared_endpoints() {
    let mut f = OsmFile::new();
    let t = strings(&["", "outer"]);
    let ways = vec![
        PbWay { id: 1, keys: vec![], vals: vec![], refs: vec![1, 1, 1] },
        PbWay { id: 2, keys: vec![], vals: vec![], refs: vec![3, 1, -3] },
    ];
    read_osm_ways(&mut f, &t, &ways).unwrap();
    let rels = vec![PbRelation { id: 5, keys: vec![], vals: vec![], roles_sid: vec![1, 1], memids: vec![1, 1], types: vec![1, 1] }];
    read_osm_relations(&mut f, &t, &rels).unwrap();
    let rel = f.get_relation(5).unwrap();
    assert_eq!(relation_to_multipolygon(&f, &rel.el), vec![vec![1, 2, 3, 4, 1]]);
}

#[test]
fn multipolygon_reverses_and_keeps_open_rings() {
    let mut f = OsmFile::new();
    let t = strings(&[""]);
    let ways = vec![
        PbWay { id: 1, keys: vec![], vals: vec![], refs: vec![1, 1] },
        PbWay { id: 2, keys: vec![], vals: vec![], refs: vec![7, 1] },
        PbWay { id: 3, keys: vec![], vals: vec![], refs: vec![3, -1] },
    ];
    read_osm_ways(&mut f, &t, &ways).unwrap();
    let rels = vec![PbRelation {
        id: 5,
        keys: vec![],
        vals: vec![],
        roles_sid: vec![0, 0, 0, 0],
        memids: vec![1, 1, 1, 96],
        types: vec![1, 1, 1, 0],
    }];
    read_osm_relations(&mut f, &t, &rels).unwrap();
    let rel = f.get_relation(5).unwrap();
    assert_eq!(relation_to_multipolygon(&f, &rel.el), vec![vec![1, 2, 3], vec![7, 8]]);
}

#[test]
fn anchors_average_coordinates() {
    let f = sample();
    assert_eq!(element_anchor(&f, OSMElementType::Node, 2), Some((300, 400)));
    assert_eq!(element_anchor(&f, OSMElementType::Way, 10), Some((300, 400)));
    assert_eq!(element_anchor(&f, OSMElementType::Way, 12), Some((-700, -800)));
    assert_eq!(element_anchor(&f, OSMElementType::Relation, 20), Some((100, 200)));
    assert_eq!(element_anchor(&f, OSMElementType::Way, 99), None);
    assert_eq!(mean_of(&vec![(-7, 7)], 2), Some((-3, 3)));
    assert_eq!(mean_of(&vec![], 0), None);
}

#[test]
fn way_points_skip_dangling_nodes() {
    let f = sample();
    assert_eq!(way_points(&f, &vec![1, 42, 3]), vec![(100, 200), (500, 600)]);
}

#[test]
fn end_to_end_label() {
    let f = sample();
    let cmds: Vec<Cmd> = vec![
        Command::Filter(FilterType::Keep, FilterExpr::Filter(Filter::IsNode)),
        Command::DrawFunc { ty: DrawKind::from_name(&s("Text")), args: 0 },
    ];
    let ops = paint(&f, &cmds);
    assert!(matches!(ops[0].kind, DrawKind::Text));
    let labelled: Vec<(String, (i64, i64))> = ops[0]
        .elements
        .iter()
        .filter_map(|e| {
            let v = element_tag(&f, e.ty, e.id, "name")?;
            Some((v.clone(), element_anchor(&f, e.ty, e.id)?))
        })
        .collect();
    assert_eq!(labelled, vec![(s("Foo"), (100, 200))]);
}

#[test]
fn draw_kinds_resolve_by_name() {
    assert!(matches!(DrawKind::from_name(&s("Polyfill")), DrawKind::Polyfill));
    assert!(matches!(DrawKind::from_name(&s("Outline")), DrawKind::Outline));
    assert!(matches!(DrawKind::from_name(&s("Dot")), DrawKind::Dot));
    assert!(matches!(DrawKind::from_name(&s("Zigzag")), DrawKind::Unknown(n) if n == "Zigzag"));
}

#[test]
fn colors_parse_hex() {
    assert_eq!(Color::new("#ff8000"), Color { r: 255, g: 128, b: 0 });
    assert_eq!(Color::new("0A0b0C"), Color { r: 10, g: 11, b: 12 });
}

#[test]
fn label_text_prefers_rename() {
    let f = sample();
    let mut o: OSMPaintObj<f64> = OSMPaintObj::new_node(1);
    assert_eq!(label_text(&f, &o, "name"), Some(s("Foo")));
    o.text_patch.rename = Some(s("Bar"));
    assert_eq!(label_text(&f, &o, "name"), Some(s("Bar")));
    assert_eq!(label_text(&f, &o, "ref"), None);
    let n: OSMPaintObj<f64> = OSMPaintObj::new_node(2);
    assert_eq!(label_text(&f, &n, "name"), None);
}
