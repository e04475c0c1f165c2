use scribel::jots::index::{
    delete_jot_index, get_jots, insert_jot, jot_of_row, load_list, row_of_jot, search_jots,
    store_list, update_jot_index, IndexRow, JotIndex,
};
use scribel::jots::models::{Jot, JotError};
use scribel::jots::time::Timestamp;

fn at(secs: i64) -> Timestamp {
    Timestamp::new(secs, 0).unwrap()
}

fn create_test_jot(id: &str, content: &str, offset_secs: i64) -> Jot {
    let now = Timestamp::now();
    let timestamp = Timestamp::new(now.secs() + offset_secs, now.subsec_nanos()).unwrap();
    Jot {
        id: id.to_string(),
        content: content.to_string(),
        created_at: timestamp,
        modified_at: timestamp,
        tags: vec!["test".to_string()],
        links: vec![],
        promoted: false,
        file_path: format!(".scribel/jots/{}.md", id),
    }
}

fn ids(jots: &Vec<Jot>) -> Vec<String> {
    jots.iter().map(|j| j.id.clone()).collect()
}

#[test]
fn test_insert_and_get_jots() {
    let mut index = JotIndex::new();

    let jot1 = create_test_jot("jot-1", "First jot", 0);
    let jot2 = create_test_jot("jot-2", "Second jot", 1);

    insert_jot(&mut index, &jot1).unwrap();
    insert_jot(&mut index, &jot2).unwrap();

    let jots = get_jots(&index, 10, 0).unwrap();
    assert_eq!(jots.len(), 2);
    assert_eq!(jots[0].id, "jot-1");
    assert_eq!(jots[1].id, "jot-2");
}

#[test]
fn test_update_jot_index() {
    let mut index = JotIndex::new();

    let mut jot = create_test_jot("jot-1", "Original content", 0);
    insert_jot(&mut index, &jot).unwrap();

    jot.content = "Updated content".to_string();
    update_jot_index(&mut index, &jot).unwrap();

    let jots = get_jots(&index, 10, 0).unwrap();
    assert_eq!(jots.len(), 1);
    assert_eq!(jots[0].content, "Updated content");
}

#[test]
fn test_delete_jot_index() {
    let mut index = JotIndex::new();

    let jot = create_test_jot("jot-1", "To delete", 0);
    insert_jot(&mut index, &jot).unwrap();

    delete_jot_index(&mut index, &jot.id).unwrap();

    let jots = get_jots(&index, 10, 0).unwrap();
    assert!(jots.is_empty());
}

#[test]
fn test_search_jots() {
    let mut index = JotIndex::new();

    let jot1 = create_test_jot("jot-1", "Meeting about project", 0);
    let jot2 = create_test_jot("jot-2", "Another note", 1);

    insert_jot(&mut index, &jot1).unwrap();
    insert_jot(&mut index, &jot2).unwrap();

    let results = search_jots(&index, "meeting", 10).unwrap();
    assert_eq!(results.len(), 1);
    assert_eq!(results[0].id, "jot-1");
}

#[test]
fn test_search_case_insensitive() {
    let mut index = JotIndex::new();

    let jot = create_test_jot("jot-1", "Important Meeting", 0);
    insert_jot(&mut index, &jot).unwrap();

    let results = search_jots(&index, "meeting", 10).unwrap();
    assert_eq!(results.len(), 1);
}

#[test]
fn test_pagination() {
    let mut index = JotIndex::new();

    for i in 0..5 {
        let jot = create_test_jot(&format!("jot-{}", i), &format!("Jot {}", i), i);
        insert_jot(&mut index, &jot).unwrap();
    }

    let page1 = get_jots(&index, 2, 0).unwrap();
    assert_eq!(page1.len(), 2);
    assert_eq!(page1[0].id, "jot-0");

    let page2 = get_jots(&index, 2, 2).unwrap();
    assert_eq!(page2.len(), 2);
    assert_eq!(page2[0].id, "jot-2");
}

#[test]
fn pages_partition_the_listing() {
    let mut index = JotIndex::new();
    for i in [3, 0, 4, 1, 2] {
        let mut jot = create_test_jot(&format!("jot-{}", i), "x", 0);
        jot.created_at = at(1000 + i);
        update_jot_index(&mut index, &jot).unwrap();
    }
    let all = ids(&get_jots(&index, 100, 0).unwrap());
    assert_eq!(all, vec!["jot-0", "jot-1", "jot-2", "jot-3", "jot-4"]);
    let mut joined = Vec::new();
    for offset in [0, 2, 4, 6] {
        joined.extend(ids(&get_jots(&index, 2, offset).unwrap()));
    }
    assert_eq!(joined, all);
    assert_eq!(ids(&get_jots(&index, 4, 1).unwrap()), all[1..5].to_vec());
    assert!(get_jots(&index, 0, 0).unwrap().is_empty());
    assert!(get_jots(&index, 5, 5).unwrap().is_empty());
    assert_eq!(get_jots(&index, u32::MAX, u32::MAX).unwrap().len(), 0);
    assert_eq!(get_jots(&index, u32::MAX, 3).unwrap().len(), 2);
}

#[test]
fn rows_created_at_the_same_time_keep_their_order_of_arrival() {
    let mut index = JotIndex::new();
    for id in ["b", "a", "c"] {
        let mut jot = create_test_jot(id, "x", 0);
        jot.created_at = at(5);
        insert_jot(&mut index, &jot).unwrap();
    }
    assert_eq!(ids(&get_jots(&index, 10, 0).unwrap()), vec!["b", "a", "c"]);
    assert_eq!(ids(&search_jots(&index, "x", 10).unwrap()), vec!["c", "a", "b"]);
}

#[test]
fn insert_replaces_the_row_of_a_jot_that_is_known() {
    let mut index = JotIndex::new();
    let first = create_test_jot("jot-1", "one", 0);
    let other = create_test_jot("jot-2", "other", 1);
    insert_jot(&mut index, &first).unwrap();
    insert_jot(&mut index, &other).unwrap();

    let mut again = create_test_jot("jot-1", "two", 0);
    again.created_at = first.created_at;
    again.tags = vec!["new".to_string()];
    again.promoted = true;
    insert_jot(&mut index, &again).unwrap();

    let jots = get_jots(&index, 10, 0).unwrap();
    assert_eq!(jots.len(), 2);
    assert_eq!(index.len(), 2);
    let row = jots.iter().find(|j| j.id == "jot-1").unwrap();
    assert_eq!(row.content, "two");
    assert_eq!(row.tags, vec!["new"]);
    assert!(row.promoted);
    assert_eq!(row.file_path, again.file_path);
    let kept = jots.iter().find(|j| j.id == "jot-2").unwrap();
    assert_eq!(kept.content, "other");
    assert!(!kept.promoted);
}

#[test]
fn insert_makes_way_for_a_row_with_the_same_path() {
    let mut index = JotIndex::new();
    let jot = create_test_jot("jot-1", "one", 0);
    insert_jot(&mut index, &jot).unwrap();
    let mut same_path = create_test_jot("jot-2", "three", 2);
    same_path.file_path = jot.file_path.clone();
    insert_jot(&mut index, &same_path).unwrap();
    let jots = get_jots(&index, 10, 0).unwrap();
    assert_eq!(jots.len(), 1);
    assert_eq!(jots[0].id, "jot-2");
    assert_eq!(jots[0].content, "three");
}

#[test]
fn upsert_replaces_rows_that_share_id_or_path() {
    let mut index = JotIndex::new();
    let a = create_test_jot("a", "first", 0);
    let b = create_test_jot("b", "second", 1);
    insert_jot(&mut index, &a).unwrap();
    insert_jot(&mut index, &b).unwrap();

    let mut c = create_test_jot("a", "third", 2);
    c.file_path = b.file_path.clone();
    update_jot_index(&mut index, &c).unwrap();

    let jots = get_jots(&index, 10, 0).unwrap();
    assert_eq!(jots.len(), 1);
    assert_eq!(jots[0].id, "a");
    assert_eq!(jots[0].content, "third");
    assert_eq!(jots[0].file_path, b.file_path);
    assert_eq!(index.len(), 1);
}

#[test]
fn upsert_moves_a_row_to_its_place() {
    let mut index = JotIndex::new();
    for (id, secs) in [("a", 10), ("b", 20), ("c", 30)] {
        let mut jot = create_test_jot(id, "x", 0);
        jot.created_at = at(secs);
        insert_jot(&mut index, &jot).unwrap();
    }
    let mut moved = create_test_jot("a", "x", 0);
    moved.created_at = at(25);
    update_jot_index(&mut index, &moved).unwrap();
    assert_eq!(ids(&get_jots(&index, 10, 0).unwrap()), vec!["b", "a", "c"]);
    assert_eq!(index.row(1).unwrap().id, "a");
    assert!(index.row(3).is_none());
}

#[test]
fn delete_is_idempotent() {
    let mut index = JotIndex::new();
    insert_jot(&mut index, &create_test_jot("a", "x", 0)).unwrap();
    insert_jot(&mut index, &create_test_jot("b", "x", 1)).unwrap();
    delete_jot_index(&mut index, "a").unwrap();
    delete_jot_index(&mut index, "a").unwrap();
    delete_jot_index(&mut index, "missing").unwrap();
    assert_eq!(ids(&get_jots(&index, 10, 0).unwrap()), vec!["b"]);
    assert!(index.holds_id("b"));
    assert!(!index.holds_id("a"));
    assert!(index.holds_path(".scribel/jots/b.md"));
    index.clear();
    assert_eq!(index.len(), 0);
}

#[test]
fn search_refuses_a_blank_query() {
    let index = JotIndex::new();
    for query in ["", "   ", "\n\t"] {
        match search_jots(&index, query, 10) {
            Err(JotError::ValidationError(reason)) => {
                assert_eq!(reason, "Search query cannot be empty")
            }
            other => panic!("{:?}", other),
        }
    }
}

#[test]
fn search_orders_newest_first_and_cuts_off() {
    let mut index = JotIndex::new();
    for (i, content) in ["a Note", "other", "NOTE b", "c note", "noté"].iter().enumerate() {
        let mut jot = create_test_jot(&format!("jot-{}", i), content, 0);
        jot.created_at = at(100 + i as i64);
        insert_jot(&mut index, &jot).unwrap();
    }
    assert_eq!(ids(&search_jots(&index, "note", 10).unwrap()), vec!["jot-3", "jot-2", "jot-0"]);
    assert_eq!(ids(&search_jots(&index, "NoTe", 2).unwrap()), vec!["jot-3", "jot-2"]);
    assert!(search_jots(&index, "note", 0).unwrap().is_empty());
    assert_eq!(ids(&search_jots(&index, "é", 10).unwrap()), vec!["jot-4"]);
    assert!(search_jots(&index, "É", 10).unwrap().is_empty());
    assert!(search_jots(&index, "n_te", 10).unwrap().is_empty());
    assert!(search_jots(&index, "%", 10).unwrap().is_empty());
    assert_eq!(search_jots(&index, " note", 10).unwrap().len(), 2);
}

#[test]
fn rows_hold_the_stored_form_of_a_jot() {
    let mut jot = create_test_jot("jot-1", "Body", 0);
    jot.created_at = Timestamp::new(1_737_297_176, 123_456_789).unwrap();
    jot.modified_at = Timestamp::new(1_737_297_177, 999_999_999).unwrap();
    jot.tags = vec!["a".to_string(), "b\"c".to_string()];
    jot.links = vec![];
    jot.promoted = true;
    let row = row_of_jot(&jot);
    assert_eq!(row.id, "jot-1");
    assert_eq!(row.file_path, ".scribel/jots/jot-1.md");
    assert_eq!(row.content, "Body");
    assert_eq!(row.created_at, 1_737_297_176_123);
    assert_eq!(row.modified_at, 1_737_297_177_999);
    assert_eq!(row.file_mtime, 1_737_297_177_999);
    assert_eq!(row.tags, "[\"a\",\"b\\\"c\"]");
    assert_eq!(row.links, "[]");
    assert_eq!(row.promoted, 1);

    let back = jot_of_row(&row);
    assert_eq!(back.id, jot.id);
    assert_eq!(back.content, jot.content);
    assert_eq!(back.tags, jot.tags);
    assert_eq!(back.links, jot.links);
    assert!(back.promoted);
    assert_eq!(back.file_path, jot.file_path);
    assert_eq!(back.created_at, Timestamp::new(1_737_297_176, 123_000_000).unwrap());
    assert_eq!(back.modified_at, Timestamp::new(1_737_297_177, 999_000_000).unwrap());
}

#[test]
fn rows_that_cannot_be_read_fall_back() {
    let row = IndexRow {
        id: "x".to_string(),
        file_path: "p".to_string(),
        content: "c".to_string(),
        created_at: i64::MAX,
        modified_at: -1,
        tags: "not json".to_string(),
        links: "[1, 2]".to_string(),
        promoted: -7,
        file_mtime: 0,
    };
    let jot = jot_of_row(&row);
    assert!(jot.tags.is_empty());
    assert!(jot.links.is_empty());
    assert!(jot.promoted);
    assert_eq!(jot.created_at, Timestamp::epoch());
    assert_eq!(jot.modified_at, Timestamp::new(-1, 999_000_000).unwrap());
    let zero = IndexRow { promoted: 0, ..row.clone() };
    assert!(!jot_of_row(&zero).promoted);
}

#[test]
fn lists_are_stored_as_json() {
    assert_eq!(store_list(&vec![]), "[]");
    assert_eq!(store_list(&vec!["a b".to_string(), "é".to_string()]), "[\"a b\",\"é\"]");
    assert_eq!(load_list("[\"x\", \"y\"]"), vec!["x", "y"]);
    assert!(load_list("").is_empty());
    assert!(load_list("{\"a\": 1}").is_empty());
}
