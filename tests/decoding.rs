use osm_render::decode::{
    blob_kind, decompress_blob_data, delta_decode, frame_data_range, frame_header_range,
    member_type, read_osm_data, read_osm_dense_nodes, read_osm_nodes, read_osm_relations,
    read_osm_ways, split_dense_tags, BlobKind, DecodeError, PbDenseNodes, PbNode,
    PbPrimitiveBlock, PbPrimitiveGroup, PbRelation, PbWay,
};
use osm_render::graph::{OsmFile, OsmRelationMemberType};
use osm_render::interner::StringTable;

fn table(words: &[&str]) -> Vec<String> {
    words.iter().map(|w| w.to_string()).collect()
}

fn tag(file: &OsmFile, tags: &std::collections::HashMap<u32, u32>, key: &str) -> Option<String> {
    file.get_tag_value(tags, key).cloned()
}

#[test]
fn interner_assigns_dense_distinct_ids() {
    let mut t = StringTable::new();
    let a = t.insert("highway".to_string());
    let b = t.insert("name".to_string());
    let a2 = t.insert("highway".to_string());
    assert_eq!(a, 0);
    assert_eq!(b, 1);
    assert_eq!(a2, a);
    assert_eq!(t.next_id(), 2);
    assert_eq!(t.lookup_idx("name"), Some(1));
    assert_eq!(t.lookup_idx("missing"), None);
    assert_eq!(t.get(0).map(|s| s.as_str()), Some("highway"));
    assert_eq!(t.get(7), None);
}

#[test]
fn interner_lookups_are_inverse() {
    let mut t = StringTable::new();
    for w in ["a", "b", "c", "b", "a"] {
        t.insert(w.to_string());
    }
    assert_eq!(t.next_id(), 3);
    for id in 0..3u32 {
        let s = t.get(id).unwrap().clone();
        assert_eq!(t.lookup_idx(&s), Some(id));
    }
}

#[test]
fn delta_decode_accumulates_signed_deltas() {
    assert_eq!(delta_decode(&vec![100, 5, -3]), Some(vec![100, 105, 102]));
    assert_eq!(delta_decode(&vec![]), Some(vec![]));
    assert_eq!(delta_decode(&vec![i64::MAX, 1]), None);
    assert_eq!(delta_decode(&vec![i64::MAX, -1, 1]), Some(vec![i64::MAX, i64::MAX - 1, i64::MAX]));
}

#[test]
fn dense_nodes_decode_ids_and_coordinates() {
    let mut file = OsmFile::new();
    let dense = PbDenseNodes {
        id: vec![100, 5, -3],
        lat: vec![10, 10, 10],
        lon: vec![10, 10, 10],
        keys_vals: vec![],
    };
    assert_eq!(read_osm_dense_nodes(&mut file, &table(&[""]), &dense), Ok(()));
    assert_eq!(file.nodes.id_list(), &vec![100, 105, 102]);
    let n = file.get_node(102).unwrap();
    assert_eq!((n.el.lat, n.el.lon), (30, 30));
    let n = file.get_node(105).unwrap();
    assert_eq!((n.el.lat, n.el.lon), (20, 20));
    assert!(n.tags.is_empty());
}

#[test]
fn dense_nodes_get_their_tag_groups() {
    let mut file = OsmFile::new();
    let dense = PbDenseNodes {
        id: vec![1, 1, 1],
        lat: vec![0, 0, 0],
        lon: vec![0, 0, 0],
        keys_vals: vec![1, 2, 0, 0, 3, 4],
    };
    let t = table(&["", "name", "Foo", "shop", "bakery"]);
    assert_eq!(read_osm_dense_nodes(&mut file, &t, &dense), Ok(()));
    let n1 = file.get_node(1).unwrap();
    assert_eq!(tag(&file, &n1.tags, "name"), Some("Foo".to_string()));
    assert!(file.get_node(2).unwrap().tags.is_empty());
    let n3 = file.get_node(3).unwrap();
    assert_eq!(tag(&file, &n3.tags, "shop"), Some("bakery".to_string()));
    assert_eq!(tag(&file, &n3.tags, "name"), None);
}

#[test]
fn dense_nodes_reject_mismatched_lists() {
    let mut file = OsmFile::new();
    let dense = PbDenseNodes { id: vec![1, 1], lat: vec![0], lon: vec![0, 0], keys_vals: vec![] };
    assert_eq!(read_osm_dense_nodes(&mut file, &table(&[""]), &dense), Err(DecodeError::LengthMismatch));
}

#[test]
fn tag_groups_split_on_zero_terminator() {
    let groups = split_dense_tags(&vec![1, 2, 0, 0, 3, 4]).unwrap();
    assert_eq!(groups, vec![vec![(1, 2)], vec![], vec![(3, 4)]]);
    assert_eq!(split_dense_tags(&vec![1, 2, 0]).unwrap(), vec![vec![(1, 2)]]);
    assert_eq!(split_dense_tags(&vec![]).unwrap(), Vec::<Vec<(u32, u32)>>::new());
    assert_eq!(split_dense_tags(&vec![1, 2, 3]), Err(DecodeError::LengthMismatch));
}

#[test]
fn plain_nodes_last_write_wins() {
    let mut file = OsmFile::new();
    let t = table(&["", "name", "A", "B"]);
    let nodes = vec![
        PbNode { id: 7, keys: vec![1], vals: vec![2], lat: 1, lon: 2 },
        PbNode { id: 8, keys: vec![], vals: vec![], lat: 3, lon: 4 },
        PbNode { id: 7, keys: vec![1], vals: vec![3], lat: 5, lon: 6 },
    ];
    assert_eq!(read_osm_nodes(&mut file, &t, &nodes), Ok(()));
    assert_eq!(file.nodes.id_list(), &vec![7, 8]);
    let n = file.get_node(7).unwrap();
    assert_eq!((n.el.lat, n.el.lon), (5, 6));
    assert_eq!(tag(&file, &n.tags, "name"), Some("B".to_string()));
}

#[test]
fn plain_nodes_reject_bad_string_index() {
    let mut file = OsmFile::new();
    let nodes = vec![PbNode { id: 1, keys: vec![5], vals: vec![1], lat: 0, lon: 0 }];
    assert_eq!(read_osm_nodes(&mut file, &table(&["", "x"]), &nodes), Err(DecodeError::BadStringIndex));
}

#[test]
fn ways_decode_node_deltas() {
    let mut file = OsmFile::new();
    let t = table(&["", "highway", "residential"]);
    let ways = vec![PbWay { id: 9, keys: vec![1], vals: vec![2], refs: vec![10, 1, 1, -2] }];
    assert_eq!(read_osm_ways(&mut file, &t, &ways), Ok(()));
    let w = file.get_way(9).unwrap();
    assert_eq!(w.el.refs, vec![10, 11, 12, 10]);
    assert_eq!(tag(&file, &w.tags, "highway"), Some("residential".to_string()));
}

#[test]
fn ways_reject_overflowing_deltas() {
    let mut file = OsmFile::new();
    let ways = vec![PbWay { id: 1, keys: vec![], vals: vec![], refs: vec![i64::MAX, 1] }];
    assert_eq!(read_osm_ways(&mut file, &table(&[""]), &ways), Err(DecodeError::Overflow));
}

#[test]
fn relations_decode_members() {
    let mut file = OsmFile::new();
    let t = table(&["", "outer", "inner", "type", "multipolygon"]);
    let rels = vec![PbRelation {
        id: 4,
        keys: vec![3],
        vals: vec![4],
        roles_sid: vec![1, 2, 1],
        memids: vec![50, 1, -40],
        types: vec![1, 1, 0],
    }];
    assert_eq!(read_osm_relations(&mut file, &t, &rels), Ok(()));
    let r = file.get_relation(4).unwrap();
    let m = &r.el.members;
    assert_eq!(m.len(), 3);
    assert_eq!((m[0].0, m[0].1.ref_id), (OsmRelationMemberType::Way, 50));
    assert_eq!((m[1].0, m[1].1.ref_id), (OsmRelationMemberType::Way, 51));
    assert_eq!((m[2].0, m[2].1.ref_id), (OsmRelationMemberType::Node, 11));
    assert_eq!(file.get_string(m[1].1.role_sid).map(|s| s.as_str()), Some("inner"));
    assert_eq!(tag(&file, &r.tags, "type"), Some("multipolygon".to_string()));
}

#[test]
fn relations_reject_unknown_member_type() {
    let mut file = OsmFile::new();
    let rels = vec![PbRelation {
        id: 4,
        keys: vec![],
        vals: vec![],
        roles_sid: vec![0],
        memids: vec![1],
        types: vec![3],
    }];
    assert_eq!(read_osm_relations(&mut file, &table(&[""]), &rels), Err(DecodeError::UnknownMemberType));
    assert_eq!(member_type(2), Some(OsmRelationMemberType::Relation));
    assert_eq!(member_type(-1), None);
}

#[test]
fn block_reinterns_strings_into_document() {
    let mut file = OsmFile::new();
    let block = PbPrimitiveBlock {
        stringtable: vec![b"".to_vec(), b"name".to_vec(), b"Foo".to_vec()],
        primitivegroup: vec![PbPrimitiveGroup {
            nodes: vec![PbNode { id: 1, keys: vec![1], vals: vec![2], lat: 0, lon: 0 }],
            dense: None,
            ways: vec![PbWay { id: 2, keys: vec![1], vals: vec![2], refs: vec![1] }],
            relations: vec![],
        }],
    };
    assert_eq!(read_osm_data(&block, &mut file), Ok(()));
    assert_eq!(file.get_string_idx("name"), Some(0));
    assert_eq!(file.get_string_idx("Foo"), Some(1));
    assert_eq!(file.get_string_idx(""), None);
    let w = file.get_way(2).unwrap();
    assert_eq!(tag(&file, &w.tags, "name"), Some("Foo".to_string()));
}

#[test]
fn block_rejects_invalid_utf8() {
    let mut file = OsmFile::new();
    let block = PbPrimitiveBlock { stringtable: vec![vec![0xff, 0xfe]], primitivegroup: vec![] };
    assert_eq!(read_osm_data(&block, &mut file), Err(DecodeError::InvalidUtf8));
}

#[test]
fn frame_ranges_follow_lengths() {
    let bytes = [0u8, 0, 0, 3, 9, 9, 9, 7, 7];
    assert_eq!(frame_header_range(&bytes, 0), Ok((4, 7)));
    assert_eq!(frame_data_range(bytes.len(), 7, 2), Ok((7, 9)));
    assert_eq!(frame_data_range(bytes.len(), 7, 3), Err(DecodeError::Truncated));
    assert_eq!(frame_data_range(bytes.len(), 7, -1), Err(DecodeError::Malformed));
    assert_eq!(frame_header_range(&bytes, 7), Err(DecodeError::Truncated));
    let big = [0u8, 0, 1, 0, 1];
    assert_eq!(frame_header_range(&big, 0), Err(DecodeError::Truncated));
}

#[test]
fn blob_kinds() {
    assert_eq!(blob_kind(&"OSMHeader".to_string()), Ok(BlobKind::Header));
    assert_eq!(blob_kind(&"OSMData".to_string()), Ok(BlobKind::Data));
    assert_eq!(blob_kind(&"Other".to_string()), Err(DecodeError::UnknownBlobType));
}

#[test]
fn zlib_payload_is_inflated() {
    let mut enc = flate2::write::ZlibEncoder::new(Vec::new(), flate2::Compression::default());
    std::io::Write::write_all(&mut enc, b"hello osm").unwrap();
    let packed = enc.finish().unwrap();
    assert_eq!(decompress_blob_data(Some(&packed[..])), Ok(b"hello osm".to_vec()));
    assert_eq!(decompress_blob_data(None), Err(DecodeError::UnsupportedCompression));
    assert_eq!(decompress_blob_data(Some(&[1u8, 2, 3][..])), Err(DecodeError::Decompress));
}

#[test]
fn element_name_prefers_nodes() {
    let mut file = OsmFile::new();
    let t = table(&["", "name", "N", "W"]);
    read_osm_nodes(&mut file, &t, &vec![PbNode { id: 5, keys: vec![], vals: vec![], lat: 0, lon: 0 }]).unwrap();
    read_osm_ways(&mut file, &t, &vec![
        PbWay { id: 5, keys: vec![1], vals: vec![3], refs: vec![] },
        PbWay { id: 6, keys: vec![1], vals: vec![3], refs: vec![] },
    ])
    .unwrap();
    assert_eq!(file.get_el_name(5), "");
    assert_eq!(file.get_el_name(6), "W");
    assert_eq!(file.get_el_name(7), "");
}

#[test]
fn block_with_dense_group_and_relation() {
    let mut file = OsmFile::new();
    let block = PbPrimitiveBlock {
        stringtable: vec![b"".to_vec(), b"outer".to_vec()],
        primitivegroup: vec![
            PbPrimitiveGroup {
                nodes: vec![],
                dense: Some(PbDenseNodes { id: vec![3, 1], lat: vec![1, 1], lon: vec![2, 2], keys_vals: vec![] }),
                ways: vec![],
                relations: vec![],
            },
            PbPrimitiveGroup {
                nodes: vec![],
                dense: None,
                ways: vec![],
                relations: vec![PbRelation { id: 8, keys: vec![], vals: vec![], roles_sid: vec![1], memids: vec![3], types: vec![0] }],
            },
        ],
    };
    assert_eq!(read_osm_data(&block, &mut file), Ok(()));
    assert_eq!(file.nodes.id_list(), &vec![3, 4]);
    assert_eq!(file.relations.id_list(), &vec![8]);
    assert_eq!(file.ways.len(), 0);
}
