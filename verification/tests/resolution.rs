use asset_visibility::AssetError;
use asset_visibility::codec::decode_hex_to_visibility;
use asset_visibility::codec::encode_visibility_to_hex;
use asset_visibility::leaves::is_member;
use asset_visibility::leaves::to_membership_predicate;
use asset_visibility::overlay::extend_with_overlays;
use asset_visibility::overlay::find_overlay_container;
use asset_visibility::overlay::non_overlay_slots;
use asset_visibility::resolve_variant;
use asset_visibility::select::Selection;
use asset_visibility::select::resolve;
use asset_visibility::transport::decode_transport_to_visibility;
use asset_visibility::transport::encode_visibility_transport;
use asset_visibility::tree::AssetTree;
use asset_visibility::tree::GroupRecord;
use asset_visibility::tree::LayerRecord;
use asset_visibility::tree::NodeKind;
use asset_visibility::tree::build_tree;
use asset_visibility::variants::all_variant_tokens;
use asset_visibility::variants::cartesian_product_with_limits;

fn group(id: u32, name: &str, parent_id: Option<u32>) -> GroupRecord {
    GroupRecord {
        id,
        name: String::from(name),
        parent_id,
    }
}

fn layer(name: &str, parent_id: Option<u32>) -> LayerRecord {
    LayerRecord {
        name: String::from(name),
        parent_id,
    }
}

/// Two top-level groups with 3 and 2 children: the scenario tree.
fn scenario_tree() -> AssetTree {
    let groups = vec![group(1, "g1", None), group(2, "g2", None)];
    let layers = vec![
        layer("a1", Some(1)),
        layer("a2", Some(1)),
        layer("a3", Some(1)),
        layer("b1", Some(2)),
        layer("b2", Some(2)),
    ];
    build_tree(&groups, &layers).unwrap()
}

/// A content group of three colors plus a "_backgrounds" overlay container
/// holding leaves "red" and "yellow".
fn overlay_tree() -> AssetTree {
    let groups = vec![group(1, "g1", None), group(99, "_backgrounds", None)];
    let layers = vec![
        layer("red", Some(1)),
        layer("blue", Some(1)),
        layer("green", Some(1)),
        layer("red", Some(99)),
        layer("yellow", Some(99)),
    ];
    build_tree(&groups, &layers).unwrap()
}

#[test]
fn builds_arena_in_declaration_order() {
    let t = scenario_tree();
    assert_eq!(t.nodes.len(), 7);
    assert_eq!(t.roots, vec![0, 1]);
    assert_eq!(t.nodes[0].kind, NodeKind::Group);
    assert_eq!(t.nodes[0].name, "g1");
    assert_eq!(t.nodes[0].children, vec![2, 3, 4]);
    assert_eq!(t.nodes[1].children, vec![5, 6]);
    assert_eq!(t.nodes[3].kind, NodeKind::Layer);
    assert_eq!(t.nodes[3].name, "a2");
    assert_eq!(t.nodes[3].parent, Some(0));
}

#[test]
fn builds_nested_groups() {
    let groups = vec![group(1, "outer", None), group(2, "inner", Some(1))];
    let layers = vec![layer("leaf", Some(2)), layer("floating", None)];
    let t = build_tree(&groups, &layers).unwrap();
    assert_eq!(t.roots, vec![0, 3]);
    assert_eq!(t.nodes[0].children, vec![1]);
    assert_eq!(t.nodes[1].children, vec![2]);
    assert_eq!(t.nodes[2].parent, Some(1));
    assert_eq!(t.nodes[3].parent, None);
}

#[test]
fn build_rejects_dangling_parent() {
    let groups = vec![group(1, "g1", None)];
    let layers = vec![layer("ok", Some(1)), layer("lost", Some(7))];
    let r = build_tree(&groups, &layers);
    assert_eq!(r.unwrap_err(), AssetError::MalformedTree { parent_id: 7 });
}

#[test]
fn build_reports_first_dangling_parent() {
    let groups = vec![group(1, "g1", Some(5)), group(2, "g2", Some(6))];
    let layers = vec![];
    let r = build_tree(&groups, &layers);
    assert_eq!(r.unwrap_err(), AssetError::MalformedTree { parent_id: 5 });
}

#[test]
fn duplicate_group_ids_first_wins() {
    let groups = vec![group(1, "first", None), group(1, "second", None)];
    let layers = vec![layer("leaf", Some(1))];
    let t = build_tree(&groups, &layers).unwrap();
    assert_eq!(t.nodes[2].parent, Some(0));
    assert_eq!(t.nodes[0].children, vec![2]);
    assert!(t.nodes[1].children.is_empty());
}

#[test]
fn decodes_hex_pairs() {
    assert_eq!(
        decode_hex_to_visibility(b"0101000300030003"),
        vec![1, 1, 0, 3, 0, 3, 0, 3]
    );
    assert_eq!(decode_hex_to_visibility(b"FF"), vec![255]);
    assert_eq!(decode_hex_to_visibility(b"ff"), vec![255]);
    assert_eq!(decode_hex_to_visibility(b""), Vec::<u8>::new());
}

#[test]
fn decoding_is_total_on_malformed_input() {
    // an unparseable pair decodes to zero instead of failing
    assert_eq!(decode_hex_to_visibility(b"zz02"), vec![0, 2]);
    assert_eq!(decode_hex_to_visibility(b"0g"), vec![0]);
    // a lone trailing byte counts as an unparseable pair
    assert_eq!(decode_hex_to_visibility(b"015"), vec![1, 0]);
    assert_eq!(decode_hex_to_visibility(b"5"), vec![0]);
}

#[test]
fn encodes_uppercase_hex() {
    assert_eq!(encode_visibility_to_hex(&[1, 1, 0, 3]), b"01010003".to_vec());
    assert_eq!(encode_visibility_to_hex(&[255, 10]), b"FF0A".to_vec());
    assert_eq!(encode_visibility_to_hex(&[]), Vec::<u8>::new());
}

#[test]
fn decode_inverts_encode() {
    let vis: Vec<u8> = vec![0, 1, 2, 15, 16, 100, 254, 255];
    let hex = encode_visibility_to_hex(&vis);
    assert_eq!(decode_hex_to_visibility(&hex), vis);
}

#[test]
fn scenario_picks_one_child() {
    let t = scenario_tree();
    // token [2, 0]: only the second child of the first group
    let sel = resolve(&t, &[2, 0]).unwrap();
    assert_eq!(sel.members, vec![3]);
}

#[test]
fn scenario_sentinel_selects_all() {
    let t = scenario_tree();
    // token [255, 1]: all three children of the first group plus the first
    // child of the second
    let sel = resolve(&t, &[255, 1]).unwrap();
    assert_eq!(sel.members, vec![2, 3, 4, 5]);
}

#[test]
fn scenario_rejects_out_of_range() {
    let t = scenario_tree();
    // token [4, 1]: 4 exceeds the first group's 3 children
    let r = resolve(&t, &[4, 1]);
    assert_eq!(
        r.unwrap_err(),
        AssetError::VisibilityOutOfRange {
            slot: 0,
            value: 4,
            limit: 3
        }
    );
}

#[test]
fn zero_selects_nothing() {
    let t = scenario_tree();
    let sel = resolve(&t, &[0, 0]).unwrap();
    assert!(sel.members.is_empty());
}

#[test]
fn short_token_leaves_remaining_slots_empty() {
    let t = scenario_tree();
    let sel = resolve(&t, &[2]).unwrap();
    assert_eq!(sel.members, vec![3]);
}

#[test]
fn long_token_ignores_extra_values() {
    let t = scenario_tree();
    let sel = resolve(&t, &[2, 0, 77, 200]).unwrap();
    assert_eq!(sel.members, vec![3]);
}

#[test]
fn empty_tree_resolves_empty() {
    let t = build_tree(&vec![], &vec![]).unwrap();
    let sel = resolve(&t, &[9, 9]).unwrap();
    assert!(sel.members.is_empty());
}

#[test]
fn resolution_is_deterministic() {
    let t = scenario_tree();
    let s1 = resolve(&t, &[255, 2]).unwrap();
    let s2 = resolve(&t, &[255, 2]).unwrap();
    assert_eq!(s1.members, s2.members);
    let i1 = to_membership_predicate(&t, &s1);
    let i2 = to_membership_predicate(&t, &s2);
    assert_eq!(i1.len(), i2.len());
    for (a, b) in i1.iter().zip(i2.iter()) {
        assert_eq!(a.group, b.group);
        assert_eq!(a.name, b.name);
    }
}

#[test]
fn finds_overlay_container_by_name() {
    let t = overlay_tree();
    assert_eq!(find_overlay_container(&t), Some(1));
    let plain = scenario_tree();
    assert_eq!(find_overlay_container(&plain), None);
}

#[test]
fn content_slots_exclude_overlay_container() {
    let t = overlay_tree();
    assert_eq!(non_overlay_slots(&t), vec![0]);
    let plain = scenario_tree();
    assert_eq!(non_overlay_slots(&plain), vec![0, 1]);
}

#[test]
fn overlay_adds_name_matched_leaf() {
    let t = overlay_tree();
    // select "red" (node 2); the overlay leaf "red" (node 5) matches
    let sel = resolve(&t, &[1]).unwrap();
    assert_eq!(sel.members, vec![2]);
    let ext = extend_with_overlays(&t, &sel);
    assert_eq!(ext.members, vec![2, 5]);
}

#[test]
fn overlay_without_match_adds_nothing() {
    let t = overlay_tree();
    // "blue" matches no overlay child
    let sel = resolve(&t, &[2]).unwrap();
    let ext = extend_with_overlays(&t, &sel);
    assert_eq!(ext.members, vec![3]);
}

#[test]
fn overlay_missing_container_is_noop() {
    let t = scenario_tree();
    let sel = resolve(&t, &[2, 1]).unwrap();
    let ext = extend_with_overlays(&t, &sel);
    assert_eq!(ext.members, sel.members);
}

#[test]
fn overlay_group_contributes_children_not_itself() {
    // the overlay child "red" is a group of two leaves
    let groups = vec![
        group(1, "g1", None),
        group(99, "_backgrounds", None),
        group(98, "red", Some(99)),
    ];
    let layers = vec![
        layer("red", Some(1)),
        layer("r1", Some(98)),
        layer("r2", Some(98)),
    ];
    let t = build_tree(&groups, &layers).unwrap();
    // nodes: g1=0, _backgrounds=1, red group=2, red leaf=3, r1=4, r2=5
    let sel = resolve(&t, &[1]).unwrap();
    assert_eq!(sel.members, vec![3]);
    let ext = extend_with_overlays(&t, &sel);
    assert_eq!(ext.members, vec![3, 4, 5]);
}

#[test]
fn overlay_extension_is_idempotent() {
    let t = overlay_tree();
    let sel = resolve(&t, &[255]).unwrap();
    let once = extend_with_overlays(&t, &sel);
    let twice = extend_with_overlays(&t, &once);
    assert_eq!(twice.members, once.members);
}

#[test]
fn leaf_keys_carry_enclosing_group_names() {
    let t = overlay_tree();
    let sel = resolve(&t, &[1]).unwrap();
    let ext = extend_with_overlays(&t, &sel);
    let ids = to_membership_predicate(&t, &ext);
    assert_eq!(ids.len(), 2);
    assert_eq!(ids[0].group.as_deref(), Some("g1"));
    assert_eq!(ids[0].name, "red");
    assert_eq!(ids[1].group.as_deref(), Some("_backgrounds"));
    assert_eq!(ids[1].name, "red");
}

#[test]
fn selected_group_expands_to_leaf_descendants() {
    let groups = vec![group(1, "outer", None), group(2, "inner", Some(1))];
    let layers = vec![layer("deep", Some(2)), layer("shallow", Some(1))];
    let t = build_tree(&groups, &layers).unwrap();
    let sel = Selection { members: vec![0] };
    let ids = to_membership_predicate(&t, &sel);
    assert_eq!(ids.len(), 2);
    assert_eq!(ids[0].group.as_deref(), Some("inner"));
    assert_eq!(ids[0].name, "deep");
    assert_eq!(ids[1].group.as_deref(), Some("outer"));
    assert_eq!(ids[1].name, "shallow");
}

#[test]
fn membership_requires_both_names_equal() {
    let t = overlay_tree();
    let sel = resolve(&t, &[1]).unwrap();
    let ids = to_membership_predicate(&t, &sel);
    assert!(is_member(
        &ids,
        &Some(String::from("g1")),
        &String::from("red")
    ));
    assert!(!is_member(&ids, &None, &String::from("red")));
    assert!(!is_member(
        &ids,
        &Some(String::from("g1")),
        &String::from("blue")
    ));
    assert!(!is_member(
        &ids,
        &Some(String::from("_backgrounds")),
        &String::from("red")
    ));
}

#[test]
fn cartesian_product_counts_and_orders_tuples() {
    let tuples = cartesian_product_with_limits(vec![2, 3]);
    let expected: Vec<Vec<usize>> = vec![
        vec![0, 0],
        vec![0, 1],
        vec![0, 2],
        vec![1, 0],
        vec![1, 1],
        vec![1, 2],
    ];
    assert_eq!(tuples, expected);
}

#[test]
fn cartesian_product_of_nothing_is_one_empty_tuple() {
    let tuples = cartesian_product_with_limits(vec![]);
    assert_eq!(tuples, vec![Vec::<usize>::new()]);
}

#[test]
fn cartesian_product_with_zero_limit_is_empty() {
    let tuples = cartesian_product_with_limits(vec![2, 0, 3]);
    assert!(tuples.is_empty());
}

#[test]
fn enumerates_product_of_slot_ranges() {
    let t = scenario_tree();
    // (3 + 1) * (2 + 1) tokens, none repeated
    let tokens = all_variant_tokens(&t);
    assert_eq!(tokens.len(), 12);
    for i in 0..tokens.len() {
        for j in (i + 1)..tokens.len() {
            assert_ne!(tokens[i], tokens[j]);
        }
    }
    assert_eq!(tokens[0], b"0000".to_vec());
    assert_eq!(tokens[4], b"0101".to_vec());
    assert_eq!(tokens[11], b"0302".to_vec());
    // every enumerated token resolves
    for token in &tokens {
        let vis = decode_hex_to_visibility(token);
        assert!(resolve(&t, &vis).is_ok());
    }
}

#[test]
fn transport_encodes_to_url_safe_text() {
    let text = encode_visibility_transport(&[1, 1]);
    // the URL-safe unpadded text form of the hex token "0101"
    assert_eq!(text, "MDEwMQ");
}

#[test]
fn transport_round_trip_returns_token() {
    let text = encode_visibility_transport(&[1, 1, 0, 3]);
    let back = decode_transport_to_visibility(&text).unwrap();
    assert_eq!(back, vec![1, 1, 0, 3]);
}

#[test]
fn transport_rejects_invalid_text() {
    assert!(decode_transport_to_visibility("%%%").is_none());
}

#[test]
fn resolve_variant_produces_membership_keys() {
    let t = overlay_tree();
    let ids = resolve_variant(&t, &[1]).unwrap();
    assert_eq!(ids.len(), 2);
    assert_eq!(ids[0].group.as_deref(), Some("g1"));
    assert_eq!(ids[0].name, "red");
    assert_eq!(ids[1].group.as_deref(), Some("_backgrounds"));
    assert_eq!(ids[1].name, "red");
}

#[test]
fn resolve_variant_propagates_rejection() {
    let t = scenario_tree();
    let r = resolve_variant(&t, &[1, 200]);
    assert_eq!(
        r.unwrap_err(),
        AssetError::VisibilityOutOfRange {
            slot: 1,
            value: 200,
            limit: 2
        }
    );
}

#[test]
fn overlay_group_reextension_can_reach_further_names() {
    // an overlay group's children enter the selection with names that were
    // never matched, so a second extension can pull in more: idempotence is
    // owed only when every direct overlay child is a leaf
    let groups = vec![
        group(1, "g1", None),
        group(99, "_backgrounds", None),
        group(98, "a", Some(99)),
    ];
    let layers = vec![
        layer("a", Some(1)),
        layer("b", Some(98)),
        layer("b", Some(99)),
    ];
    let t = build_tree(&groups, &layers).unwrap();
    // nodes: g1=0, _backgrounds=1, group "a"=2, leaf "a"=3, inner "b"=4,
    // overlay leaf "b"=5
    let sel = resolve(&t, &[1]).unwrap();
    assert_eq!(sel.members, vec![3]);
    let once = extend_with_overlays(&t, &sel);
    assert_eq!(once.members, vec![3, 4]);
    let twice = extend_with_overlays(&t, &once);
    assert_eq!(twice.members, vec![3, 4, 5]);
}

#[test]
fn transport_of_empty_token() {
    let text = encode_visibility_transport(&[]);
    assert_eq!(text, "");
    assert_eq!(decode_transport_to_visibility("").unwrap(), Vec::<u8>::new());
}
