use omi_persona::graph_analytics::KgNode;
use omi_persona::persona::{
    check_exists, check_loaded, check_populated, embed_literal, escape_literal, graph_answer, most_recent,
    requested_db,
};

fn node(id: &str) -> KgNode {
    KgNode { id: id.into(), label: id.into(), node_type: "concept".into() }
}

#[test]
fn the_latest_database_is_chosen() {
    assert_eq!(most_recent(&vec![]), None);
    assert_eq!(most_recent(&vec![5]), Some(0));
    assert_eq!(most_recent(&vec![5, 9, 7]), Some(1));
    assert_eq!(most_recent(&vec![5, 9, 9, -3]), Some(2));
}

#[test]
fn a_query_overrides_the_database() {
    let own = "/own.db".to_string();
    assert_eq!(requested_db(None, own.clone()), "/own.db");
    assert_eq!(requested_db(Some("/other.db".to_string()), own), "/other.db");
}

#[test]
fn unreadable_graphs_are_refused() {
    let path = "/tmp/x.db".to_string();
    let r = graph_answer(false, &path, Ok((vec![node("a")], vec![]))).unwrap_err();
    assert_eq!((r.status, r.message.as_str()), (404, "DB file not found: /tmp/x.db"));
    let r = graph_answer(true, &path, Err("no such table: local_kg_nodes".into())).unwrap_err();
    assert_eq!(
        (r.status, r.message.as_str()),
        (500, "SQLite read failed: no such table: local_kg_nodes")
    );
    let r = graph_answer(true, &path, Ok((vec![], vec![]))).unwrap_err();
    assert_eq!(
        (r.status, r.message.as_str()),
        (
            404,
            "DB /tmp/x.db has no local_kg_nodes — app hasn't populated the knowledge graph yet"
        )
    );
    let (nodes, edges) = graph_answer(true, &path, Ok((vec![node("a")], vec![]))).unwrap();
    assert_eq!((nodes.len(), edges.len()), (1, 0));
    assert_eq!(nodes[0].id, "a");
}

#[test]
fn single_checks() {
    let path = "p".to_string();
    assert!(check_exists(true, &path).is_ok());
    assert!(check_exists(false, &path).is_err());
    assert!(check_loaded(Ok((vec![], vec![]))).is_ok());
    assert!(check_populated(&vec![], &path).is_err());
    assert!(check_populated(&vec![node("n")], &path).is_ok());
}

#[test]
fn paths_are_escaped_for_a_string_literal() {
    assert_eq!(escape_literal(&"/plain/path.db".to_string()), "/plain/path.db");
    assert_eq!(escape_literal(&"C:\\dir\\x".to_string()), "C:\\\\dir\\\\x");
    assert_eq!(escape_literal(&"a\"b\\\"ü".to_string()), "a\\\"b\\\\\\\"ü");
    assert_eq!(escape_literal(&String::new()), "");
    // The same as replacing backslashes first and quotes then.
    let s = "\\\"\\\\x\"".to_string();
    assert_eq!(escape_literal(&s), s.replace('\\', "\\\\").replace('"', "\\\""));
}

#[test]
fn no_text_can_break_out_of_its_literal() {
    assert_eq!(escape_literal(&"\n\r".to_string()), "\\n\\r");
    assert_eq!(escape_literal(&"a\u{2028}b\u{2029}".to_string()), "a\\u2028b\\u2029");
    assert_eq!(escape_literal(&"</script>".to_string()), "\\u003c/script>");
    assert_eq!(escape_literal(&"<!--\0".to_string()), "\\u003c!--\\u0000");
    assert_eq!(escape_literal(&"tab\t'`${x}".to_string()), "tab\t'`${x}");
    let page = embed_literal("const DB_PATH = ", &"a\"\n".to_string(), ";");
    assert_eq!(page, "const DB_PATH = \"a\\\"\\n\";");
}
