//! The documented behaviors on concrete documents: boundary cases, the
//! round trips, the standing invariants checked at run time, and the
//! end-to-end scenarios.

use hson::Hson;
use hson::HsonError;
use hson::Kind;
use hson::Ops;
use hson::Query;
use hson::Search;

#[test]
fn empty_input_parses_to_empty_document() {
    let mut hson = Hson::new();
    assert_eq!(hson.parse("").unwrap(), ());
    assert_eq!(hson.indexes.len(), 0);
    assert_eq!(hson.stringify(), "");
}

#[test]
fn whitespace_only_input_parses_to_empty_document() {
    let mut hson = Hson::new();
    assert_eq!(hson.parse("  \t\r\n ").unwrap(), ());
    assert_eq!(hson.indexes.len(), 0);
}

#[test]
fn array_of_primitives_has_empty_keys_and_exact_values() {
    let mut hson = Hson::new();
    hson.parse("{\"c\": [1, 22, 333]}").unwrap();
    assert_eq!(hson.indexes.len(), 5);

    let c = hson.query("c").unwrap();
    assert_eq!(c.len(), 1);
    let cv = hson.get_vertex(c[0]).unwrap();
    assert_eq!(cv.childs.len(), 3);

    let expected = ["1", "22", "333"];
    for (i, cid) in cv.childs.iter().enumerate() {
        let child = hson.get_vertex(*cid).unwrap();
        assert_eq!(child.key, "");
        assert_eq!(child.value, expected[i]);
        assert_eq!(child.parent, cv.id);
    }
}

#[test]
fn escaped_quotes_do_not_split_a_string_node() {
    let mut hson = Hson::new();
    hson.parse(r#"{"text": "say \"hello, world\" twice"}"#).unwrap();
    assert_eq!(hson.indexes.len(), 2);

    let t = hson.query("text").unwrap();
    let v = hson.get_vertex(t[0]).unwrap();
    assert_eq!(v.value, r#"say \"hello, world\" twice"#);
}

#[test]
fn insert_into_empty_parent_adds_no_comma() {
    let mut hson = Hson::new();
    hson.parse("{\"box\": {}}").unwrap();
    let boxes = hson.query("box").unwrap();
    let box_id = boxes[0];

    hson.insert(box_id, 0, "{\"x\": true}").unwrap();

    let xs = hson.query("x").unwrap();
    assert_eq!(xs.len(), 1);
    let xv = hson.get_vertex(xs[0]).unwrap();
    assert_eq!(xv.parent, box_id);
    assert_eq!(xv.value, "true");
    assert_eq!(hson.stringify(), "{\"box\":{\"x\":true}}");
}

#[test]
fn removing_the_only_child_leaves_no_stray_comma() {
    let mut hson = Hson::new();
    hson.parse("{\"box\": {\"x\": true}}").unwrap();
    let xs = hson.query("x").unwrap();

    hson.remove(xs[0]).unwrap();

    let boxes = hson.query("box").unwrap();
    let bv = hson.get_vertex(boxes[0]).unwrap();
    assert_eq!(bv.childs.len(), 0);
    assert_eq!(hson.stringify(), "{\"box\":{}}");
}

#[test]
fn seven_nodes_and_their_queries() {
    let mut hson = Hson::new();
    hson.parse("{ \"a\": { \"b\": 12, \"c\": [1, 2, 3] } }").unwrap();
    assert_eq!(hson.indexes.len(), 7);

    let b = hson.query("b").unwrap();
    assert_eq!(b.len(), 1);
    assert_eq!(hson.get_vertex(b[0]).unwrap().value, "12");

    let c = hson.query("c").unwrap();
    assert_eq!(c.len(), 1);
    let cv = hson.get_vertex(c[0]).unwrap();
    let expected = ["1", "2", "3"];
    for (i, cid) in cv.childs.iter().enumerate() {
        let child = hson.get_vertex(*cid).unwrap();
        assert_eq!(child.key, "");
        assert_eq!(child.value, expected[i]);
    }
}

#[test]
fn equality_search_picks_one_sibling() {
    let mut hson = Hson::new();
    hson.parse(
        "{\"p\": {\"attrs\": {\"id\": \"12\"}}, \"p\": {\"attrs\": {\"id\": \"34\"}}}",
    )
    .unwrap();

    let results = hson.search("p attrs id='12'").unwrap();
    assert_eq!(results.len(), 1);
    assert_eq!(hson.get_vertex(results[0]).unwrap().value, "12");
}

#[test]
fn insertion_at_the_front_of_the_root() {
    let mut hson = Hson::new();
    hson.parse("{\"a\": 1, \"b\": 2}").unwrap();
    let n = hson.indexes.len();
    let root = hson.get_root();

    hson.insert(root, 0, "{\"x\": true}").unwrap();
    assert_eq!(hson.indexes.len(), n + 1);

    let xs = hson.query("x").unwrap();
    assert_eq!(hson.get_vertex(xs[0]).unwrap().value, "true");

    let text = hson.stringify();
    let x_at = text.find("\"x\":true").unwrap();
    let a_at = text.find("\"a\":1").unwrap();
    assert!(x_at < a_at);
    assert_eq!(text, "{\"x\":true,\"a\":1,\"b\":2}");
}

#[test]
fn removal_shrinks_by_the_subtree_and_keeps_the_text_clean() {
    let mut hson = Hson::new();
    hson.parse("{\"p\": {\"x\": 1, \"y\": 2}, \"p\": {\"z\": 3}, \"q\": 4}").unwrap();
    let n = hson.indexes.len();

    let ps = hson.query("p").unwrap();
    assert_eq!(ps.len(), 2);
    let first_p = ps[0];
    let subtree = hson.get_all_childs(first_p).unwrap().len() + 1;

    hson.remove(first_p).unwrap();
    assert_eq!(hson.indexes.len(), n - subtree);

    let text = hson.stringify();
    assert!(!text.contains("\"x\""));
    assert!(!text.contains(",,"));
    assert_eq!(text, "{\"p\":{\"z\":3},\"q\":4}");
}

#[test]
fn failed_fragment_leaves_the_document_untouched() {
    let mut hson = Hson::new();
    hson.parse("{\"a\": {\"b\": 1}}").unwrap();
    let before = hson.stringify();
    let n = hson.indexes.len();

    let aid = hson.query("a").unwrap()[0];
    let r = hson.insert(aid, 0, "{\"broken\": \"oops}");
    assert_eq!(r, Err(HsonError::FragmentError));

    assert_eq!(hson.stringify(), before);
    assert_eq!(hson.indexes.len(), n);
}

#[test]
fn mixed_search_finds_each_attribute_once() {
    let mut hson = Hson::new();
    hson.parse(
        "{\"div\": {\"p\": {\"attrs\": {\"id\": \"1\", \"rate\": 2, \"trusted\": true}}}}",
    )
    .unwrap();

    let results = hson.search("div > p attrs id | rate | trusted").unwrap();
    assert_eq!(results.len(), 3);
    let attrs = hson.search("attrs").unwrap();
    let attrs_id = attrs[0];
    for id in results {
        let v = hson.get_vertex(id).unwrap();
        assert_eq!(v.parent, attrs_id);
    }
}

#[test]
fn reparsing_the_output_rebuilds_the_same_structure() {
    let mut hson = Hson::new();
    hson.parse(
        "{\"a\": {\"b\": 12, \"c\": [1, 2.5, true, \"s\"]}, \"d\": \"tail\"}",
    )
    .unwrap();

    let text = hson.stringify();
    let mut again = Hson::new();
    again.parse(&text).unwrap();

    assert_eq!(hson.indexes.len(), again.indexes.len());
    for i in 0..hson.indexes.len() {
        let a = hson.get_vertex(hson.indexes[i]).unwrap();
        let b = again.get_vertex(again.indexes[i]).unwrap();
        assert_eq!(a.key, b.key);
        assert_eq!(a.value, b.value);
        assert_eq!(a.instance, b.instance);
        assert_eq!(a.childs.len(), b.childs.len());
    }
    assert_eq!(again.stringify(), text);
}

#[test]
fn insert_then_remove_restores_the_text() {
    let mut hson = Hson::new();
    hson.parse("{\"a\": {\"b\": 1, \"c\": 2}, \"d\": 3}").unwrap();
    let before = hson.stringify();

    let aid = hson.query("a").unwrap()[0];
    let old_childs = hson.get_vertex(aid).unwrap().childs;

    hson.insert(aid, 1, "{\"x\": true, \"y\": [1, 2]}").unwrap();

    let new_childs = hson.get_vertex(aid).unwrap().childs;
    let adopted: Vec<u64> =
        new_childs.iter().cloned().filter(|c| !old_childs.contains(c)).collect();
    assert_eq!(adopted.len(), 2);

    for id in adopted.iter().rev() {
        hson.remove(*id).unwrap();
    }

    assert_eq!(hson.stringify(), before);
    assert_eq!(hson.get_vertex(aid).unwrap().childs, old_childs);
}

#[test]
fn key_ranges_stay_disjoint_after_every_operation() {
    let mut hson = Hson::new();
    hson.parse("{\"a\": {\"b\": [1, {\"c\": 2}], \"d\": \"x\"}, \"e\": 5}").unwrap();
    assert!(hson.check_keys_disjoint());

    let aid = hson.query("a").unwrap()[0];
    hson.insert(aid, 1, "{\"new\": {\"deep\": [true]}}").unwrap();
    assert!(hson.check_keys_disjoint());

    let bid = hson.query("b").unwrap()[0];
    hson.remove(bid).unwrap();
    assert!(hson.check_keys_disjoint());
}

#[test]
fn value_ranges_nest_after_every_operation() {
    let mut hson = Hson::new();
    hson.parse("{\"a\": {\"b\": [1, {\"c\": 2}], \"d\": \"x\"}, \"e\": 5}").unwrap();
    assert!(hson.check_ranges_nested());

    let aid = hson.query("a").unwrap()[0];
    hson.insert(aid, 1, "{\"new\": {\"deep\": [true]}}").unwrap();
    assert!(hson.check_ranges_nested());

    let bid = hson.query("b").unwrap()[0];
    hson.remove(bid).unwrap();
    assert!(hson.check_ranges_nested());
}

#[test]
fn kinds_are_classified_from_the_literals() {
    let mut hson = Hson::new();
    hson.parse(
        "{\"i\": -42, \"f\": 3.25, \"g\": 2e10, \"t\": true, \"x\": false, \"s\": \"str\", \"o\": {}, \"l\": []}",
    )
    .unwrap();

    let kind_of = |h: &Hson, key: &str| {
        let ids = Query::query(h, key).unwrap();
        h.get_vertex(ids[0]).unwrap().kind
    };
    assert_eq!(kind_of(&hson, "i"), Kind::Integer);
    assert_eq!(kind_of(&hson, "f"), Kind::Float);
    assert_eq!(kind_of(&hson, "g"), Kind::Float);
    assert_eq!(kind_of(&hson, "t"), Kind::Bool);
    assert_eq!(kind_of(&hson, "x"), Kind::Bool);
    assert_eq!(kind_of(&hson, "s"), Kind::String);
    assert_eq!(kind_of(&hson, "o"), Kind::Node);
    assert_eq!(kind_of(&hson, "l"), Kind::Array);
}

#[test]
fn unparseable_literal_is_rejected() {
    let mut hson = Hson::new();
    let r = hson.parse("{\"bad\": nope}");
    assert!(r.is_err());
}

#[test]
fn traversal_visits_ids_in_instance_order() {
    let mut hson = Hson::new();
    hson.parse("{\"a\": 1, \"b\": 2}").unwrap();
    let expected = hson.indexes.clone();

    let mut seen = Vec::new();
    while let Some(id) = hson.next() {
        seen.push(id);
    }
    assert_eq!(seen, expected);
    assert!(hson.next().is_some());
}

#[test]
fn descendants_and_the_descendant_test_agree() {
    let mut hson = Hson::new();
    hson.parse("{\"a\": {\"b\": {\"c\": 1}}, \"d\": 2}").unwrap();
    let root = hson.get_root();
    let a = hson.query("a").unwrap()[0];
    let c = hson.query("c").unwrap()[0];
    let d = hson.query("d").unwrap()[0];

    assert!(hson.is_descendant(a, c));
    assert!(hson.is_descendant(root, d));
    assert!(!hson.is_descendant(a, d));
    assert!(!hson.is_descendant(c, a));

    let all = hson.get_all_childs(root).unwrap();
    assert_eq!(all.len(), hson.indexes.len() - 1);
    assert_eq!(
        hson.get_all_childs(12345),
        Err(HsonError::UnknownIdentifier(12345))
    );
}

#[test]
fn query_nodes_and_vertices_match() {
    let mut hson = Hson::new();
    hson.parse("{\"k\": \"v\"}").unwrap();
    let nodes = hson.query_nodes("k").unwrap();
    assert_eq!(nodes.len(), 1);
    assert_eq!(hson.get_node_key(nodes[0]), "k");
    assert_eq!(hson.get_node_value(nodes[0]), "v");

    let root_node = hson.get_root_node().unwrap();
    assert!(root_node.root);

    let vx = hson.get_vertex(nodes[0].id).unwrap();
    assert_eq!(vx.key_as_string().unwrap(), "k");
    assert_eq!(vx.value_as_string().unwrap(), "v");
}

#[test]
fn boolean_values_read_back() {
    let mut hson = Hson::new();
    hson.parse("{\"t\": true, \"f\": false, \"s\": \"true-ish\"}").unwrap();
    let t = hson.query("t").unwrap()[0];
    let f = hson.query("f").unwrap()[0];
    let s = hson.query("s").unwrap()[0];
    assert_eq!(hson.get_vertex(t).unwrap().value_as_bool(), Some(true));
    assert_eq!(hson.get_vertex(f).unwrap().value_as_bool(), Some(false));
    assert_eq!(hson.get_vertex(s).unwrap().value_as_bool(), None);
}

#[test]
fn unbalanced_and_truncated_inputs_are_rejected() {
    let mut hson = Hson::new();
    assert!(hson.parse("{\"a\": {").is_err());

    let mut hson = Hson::new();
    assert!(hson.parse("{\"a\": 1").is_err());

    let mut hson = Hson::new();
    assert!(hson.parse("{]").is_err());
}

#[test]
fn transitive_children_come_in_preorder() {
    let mut hson = Hson::new();
    hson.parse("{\"a\": {\"b\": {\"c\": 1}, \"d\": 2}, \"e\": 3}").unwrap();
    let root = hson.get_root();

    let all = hson.get_all_childs(root).unwrap();
    let keys: Vec<String> = all
        .iter()
        .map(|id| hson.get_vertex(*id).unwrap().key)
        .collect();
    assert_eq!(keys, vec!["a", "b", "c", "d", "e"]);
}

#[test]
fn colon_heavy_string_values_do_not_become_keys() {
    let mut hson = Hson::new();
    hson.parse("{\"a\": \":x\"}").unwrap();
    assert_eq!(hson.indexes.len(), 2);
    let a = hson.query("a").unwrap();
    assert_eq!(hson.get_vertex(a[0]).unwrap().value, ":x");

    let mut hson = Hson::new();
    hson.parse(r#"{"a": "x\":y"}"#).unwrap();
    assert_eq!(hson.indexes.len(), 2);
    let a = hson.query("a").unwrap();
    assert_eq!(hson.get_vertex(a[0]).unwrap().value, r#"x\":y"#);
}

#[test]
fn a_backslash_outside_strings_opens_no_literal() {
    // the quote after the backslash does not start a string literal, so
    // the following space is insignificant and the text cannot parse
    let mut hson = Hson::new();
    assert!(hson.parse("{\"a\": \\\" }").is_err());
}

#[test]
fn failed_replacement_leaves_the_document_untouched() {
    let mut hson = Hson::new();
    hson.parse("{\"a\": {\"b\": 1, \"c\": 2}}").unwrap();
    let before = hson.stringify();
    let n = hson.indexes.len();

    let b = hson.query("b").unwrap()[0];
    let r = hson.replace(b, "{\"broken\": \"oops}");
    assert_eq!(r, Err(HsonError::FragmentError));

    assert_eq!(hson.stringify(), before);
    assert_eq!(hson.indexes.len(), n);
    assert_eq!(hson.query("b").unwrap().len(), 1);
}

#[test]
fn replacement_swaps_exactly_the_freed_slot() {
    let mut hson = Hson::new();
    hson.parse("{\"a\": {\"b\": 1, \"c\": 2, \"d\": 3}}").unwrap();

    let c = hson.query("c").unwrap()[0];
    hson.replace(c, "{\"x\": true, \"y\": false}").unwrap();

    let a = hson.query("a").unwrap()[0];
    let keys: Vec<String> = hson
        .get_vertex(a)
        .unwrap()
        .childs
        .iter()
        .map(|id| hson.get_vertex(*id).unwrap().key)
        .collect();
    assert_eq!(keys, vec!["b", "x", "y", "d"]);
    assert_eq!(hson.stringify(), "{\"a\":{\"b\":1,\"x\":true,\"y\":false,\"d\":3}}");
}
