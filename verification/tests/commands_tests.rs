use scribel::commands::jots::{
    clamp_limit, create_jot, delete_jot, get_jot, get_jots, jot_id_of_file_name,
    rebuild_jot_index, rebuilt_index, search_jots, set_jot_promoted, update_jot, DEFAULT_LIMIT,
    MAX_LIMIT,
};
use scribel::config::AppConfig;
use scribel::db::migrations::{pending_migration, SCHEMA_VERSION};
use scribel::jots::index::JotIndex;
use scribel::jots::models::{CreateJotInput, Jot, JotError, UpdateJotInput};
use scribel::jots::time::Timestamp;

fn jot(id: &str, content: &str, secs: i64) -> Jot {
    let at = Timestamp::new(secs, 0).unwrap();
    Jot {
        id: id.to_string(),
        content: content.to_string(),
        created_at: at,
        modified_at: at,
        tags: vec![],
        links: vec![],
        promoted: false,
        file_path: format!(".scribel/jots/{}.md", id),
    }
}

fn ids(jots: &Vec<Jot>) -> Vec<String> {
    jots.iter().map(|j| j.id.clone()).collect()
}

fn listing(index: &JotIndex) -> Vec<String> {
    ids(&get_jots(index, Some(500), None).unwrap())
}

#[test]
fn limits_are_clamped() {
    assert_eq!(clamp_limit(None), 50);
    assert_eq!(clamp_limit(Some(0)), 0);
    assert_eq!(clamp_limit(Some(499)), 499);
    assert_eq!(clamp_limit(Some(500)), 500);
    assert_eq!(clamp_limit(Some(501)), 500);
    assert_eq!(clamp_limit(Some(u32::MAX)), 500);
    assert_eq!((DEFAULT_LIMIT, MAX_LIMIT), (50, 500));
}

#[test]
fn listings_and_searches_never_exceed_the_limit() {
    let mut index = JotIndex::new();
    for i in 0..620 {
        create_jot(&mut index, Ok(jot(&format!("jot-{:03}", i), "same note", i)), Ok(())).unwrap();
    }
    assert_eq!(get_jots(&index, None, None).unwrap().len(), 50);
    assert_eq!(get_jots(&index, Some(10_000), None).unwrap().len(), 500);
    assert_eq!(get_jots(&index, Some(u32::MAX), Some(200)).unwrap().len(), 420);
    assert_eq!(get_jots(&index, Some(7), Some(0)).unwrap().len(), 7);
    assert_eq!(get_jots(&index, None, Some(600)).unwrap().len(), 20);
    assert_eq!(search_jots(&index, "NOTE", None).unwrap().len(), 50);
    assert_eq!(search_jots(&index, "note", Some(9_999)).unwrap().len(), 500);
    let newest = search_jots(&index, "note", Some(2)).unwrap();
    assert_eq!(ids(&newest), vec!["jot-619", "jot-618"]);
    let oldest = get_jots(&index, Some(2), None).unwrap();
    assert_eq!(ids(&oldest), vec!["jot-000", "jot-001"]);
}

#[test]
fn an_empty_search_is_refused() {
    let index = JotIndex::new();
    assert_eq!(
        search_jots(&index, "", None).unwrap_err(),
        "Invalid content: Search query cannot be empty"
    );
    assert_eq!(
        search_jots(&index, " \n", Some(3)).unwrap_err(),
        "Invalid content: Search query cannot be empty"
    );
}

#[test]
fn a_stored_jot_enters_the_index() {
    let mut index = JotIndex::new();
    let made = create_jot(&mut index, Ok(jot("a", "first", 1)), Ok(())).unwrap();
    assert_eq!(made.id, "a");
    assert_eq!(listing(&index), vec!["a"]);

    let mut changed = jot("a", "second", 1);
    changed.promoted = true;
    let out = update_jot(&mut index, Ok(changed.clone()), Ok(())).unwrap();
    assert_eq!(out.content, "second");
    let out = set_jot_promoted(&mut index, Ok(changed), Ok(())).unwrap();
    assert!(out.promoted);
    let listed = get_jots(&index, None, None).unwrap();
    assert_eq!(listed.len(), 1);
    assert_eq!(listed[0].content, "second");
    assert!(listed[0].promoted);
}

#[test]
fn a_failed_write_leaves_the_index_alone() {
    let mut index = JotIndex::new();
    create_jot(&mut index, Ok(jot("a", "first", 1)), Ok(())).unwrap();
    let failure = |text: &str| -> Result<Jot, JotError> { Err(JotError::FileError(text.into())) };

    assert_eq!(
        create_jot(&mut index, failure("disk full"), Ok(())).unwrap_err(),
        "File operation failed: disk full"
    );
    assert_eq!(
        update_jot(&mut index, Err(JotError::NotFound("b".into())), Ok(())).unwrap_err(),
        "Jot not found: b"
    );
    assert_eq!(
        set_jot_promoted(&mut index, Err(JotError::ParseError("bad".into())), Ok(()))
            .unwrap_err(),
        "Invalid jot format: bad"
    );
    assert_eq!(
        delete_jot(&mut index, "a", Err(JotError::FileError("busy".into())), Ok(()))
            .unwrap_err(),
        "File operation failed: busy"
    );
    assert_eq!(
        create_jot(&mut index, failure("first"), Err(JotError::DbError("second".into())))
            .unwrap_err(),
        "File operation failed: first"
    );
    assert_eq!(listing(&index), vec!["a"]);
    assert_eq!(get_jots(&index, None, None).unwrap()[0].content, "first");
}

#[test]
fn a_failed_index_write_fails_the_operation() {
    let mut index = JotIndex::new();
    create_jot(&mut index, Ok(jot("a", "first", 1)), Ok(())).unwrap();
    let no_table = || -> Result<(), JotError> { Err(JotError::DbError("no such table".into())) };

    let made = jot("b", "on file only", 2);
    assert_eq!(
        create_jot(&mut index, Ok(made.clone()), no_table()).unwrap_err(),
        "Database error: no such table"
    );
    assert_eq!(listing(&index), vec!["a"]);

    assert_eq!(
        update_jot(&mut index, Ok(jot("a", "changed", 1)), no_table()).unwrap_err(),
        "Database error: no such table"
    );
    let mut raised = jot("a", "first", 1);
    raised.promoted = true;
    assert_eq!(
        set_jot_promoted(&mut index, Ok(raised), no_table()).unwrap_err(),
        "Database error: no such table"
    );
    let listed = get_jots(&index, None, None).unwrap();
    assert_eq!(listed.len(), 1);
    assert_eq!(listed[0].content, "first");
    assert!(!listed[0].promoted);

    assert_eq!(
        delete_jot(&mut index, "a", Ok(()), no_table()).unwrap_err(),
        "Database error: no such table"
    );
    assert_eq!(listing(&index), vec!["a"]);

    let decoded = vec![Ok(jot("a", "first", 1)), Ok(made)];
    assert_eq!(
        rebuild_jot_index(&mut index, &decoded, no_table()).unwrap_err(),
        "Database error: no such table"
    );
    assert_eq!(listing(&index), vec!["a"]);
    assert_eq!(rebuild_jot_index(&mut index, &decoded, Ok(())), Ok(2));
    assert_eq!(listing(&index), vec!["a", "b"]);
}

#[test]
fn a_removed_file_takes_its_row_along() {
    let mut index = JotIndex::new();
    create_jot(&mut index, Ok(jot("a", "x", 1)), Ok(())).unwrap();
    create_jot(&mut index, Ok(jot("b", "x", 2)), Ok(())).unwrap();
    delete_jot(&mut index, "a", Ok(()), Ok(())).unwrap();
    assert_eq!(listing(&index), vec!["b"]);
    delete_jot(&mut index, "a", Ok(()), Ok(())).unwrap();
    assert_eq!(listing(&index), vec!["b"]);
}

#[test]
fn a_single_jot_comes_from_its_file() {
    assert_eq!(get_jot(Ok(jot("a", "x", 1))).unwrap().id, "a");
    assert_eq!(get_jot(Err(JotError::NotFound("a".into()))).unwrap_err(), "Jot not found: a");
    assert_eq!(
        get_jot(Err(JotError::YamlError("line 3".into()))).unwrap_err(),
        "YAML parsing error: line 3"
    );
}

#[test]
fn errors_read_as_documented() {
    let cases = [
        (JotError::NotFound("x".into()), "Jot not found: x"),
        (JotError::FileError("x".into()), "File operation failed: x"),
        (JotError::ParseError("x".into()), "Invalid jot format: x"),
        (JotError::DbError("x".into()), "Database error: x"),
        (JotError::VaultNotConfigured, "Vault not configured"),
        (JotError::ValidationError("x".into()), "Invalid content: x"),
        (JotError::YamlError("x".into()), "YAML parsing error: x"),
    ];
    for (error, text) in cases {
        assert_eq!(error.message(), text);
        assert_eq!(error.clone().message(), text);
        assert_eq!(String::from(error), text);
    }
}

#[test]
fn rebuild_mirrors_the_files() {
    let mut index = JotIndex::new();
    create_jot(&mut index, Ok(jot("stale", "gone from disk", 1)), Ok(())).unwrap();
    create_jot(&mut index, Ok(jot("b", "old text", 20)), Ok(())).unwrap();

    let decoded = vec![
        Ok(jot("c", "three", 30)),
        Err(JotError::ParseError("Missing frontmatter delimiters".into())),
        Ok(jot("a", "one", 10)),
        Err(JotError::ParseError("bad".into())),
        Ok(jot("b", "two", 20)),
    ];
    assert_eq!(rebuild_jot_index(&mut index, &decoded, Ok(())), Ok(3));
    assert_eq!(listing(&index), vec!["a", "b", "c"]);
    assert_eq!(get_jots(&index, None, Some(1)).unwrap()[0].content, "two");

    assert_eq!(rebuild_jot_index(&mut index, &decoded, Ok(())), Ok(3));
    assert_eq!(listing(&index), vec!["a", "b", "c"]);

    let (fresh, count) = rebuilt_index(&decoded);
    assert_eq!(count, 3);
    assert_eq!(listing(&fresh), listing(&index));

    assert_eq!(rebuild_jot_index(&mut index, &vec![], Ok(())), Ok(0));
    assert!(listing(&index).is_empty());
}

#[test]
fn rebuild_keeps_the_last_of_two_files_with_one_id() {
    let mut index = JotIndex::new();
    let mut second = jot("a", "second", 5);
    second.file_path = ".scribel/jots/copy.md".to_string();
    let decoded = vec![Ok(jot("a", "first", 5)), Ok(second)];
    assert_eq!(rebuild_jot_index(&mut index, &decoded, Ok(())), Ok(2));
    let listed = get_jots(&index, None, None).unwrap();
    assert_eq!(listed.len(), 1);
    assert_eq!(listed[0].content, "second");
}

#[test]
fn jot_files_are_told_by_their_names() {
    assert_eq!(jot_id_of_file_name("jot-1.md"), Some("jot-1".to_string()));
    assert_eq!(jot_id_of_file_name("a.b.md"), Some("a.b".to_string()));
    assert_eq!(jot_id_of_file_name("é.md"), Some("é".to_string()));
    assert_eq!(jot_id_of_file_name("..md"), Some(".".to_string()));
    for name in ["", ".md", "md", "a.MD", "a.md ", "a.txt", "amd", "a.md.bak", "a."] {
        assert_eq!(jot_id_of_file_name(name), None, "{:?}", name);
    }
    for name in ["jot-1.md", "a.b.md", "..md", ".md", "a.txt", "a.", "noext", ".hidden"] {
        let path = std::path::Path::new(name);
        let expected = if path.extension().and_then(|s| s.to_str()) == Some("md") {
            path.file_stem().and_then(|s| s.to_str()).map(|s| s.to_string())
        } else {
            None
        };
        assert_eq!(jot_id_of_file_name(name), expected, "{:?}", name);
    }
}

#[test]
fn migrations_run_when_the_storage_is_behind() {
    assert_eq!(SCHEMA_VERSION, 1);
    assert_eq!(pending_migration(None), Some(1));
    assert_eq!(pending_migration(Some(0)), Some(1));
    assert_eq!(pending_migration(Some(-3)), Some(1));
    assert_eq!(pending_migration(Some(1)), None);
    assert_eq!(pending_migration(Some(2)), None);
    assert_eq!(pending_migration(Some(i32::MAX)), None);
}

#[test]
fn no_vault_is_detected() {
    assert!(AppConfig::detect_vault().is_none());
    let config = AppConfig { vault_path: "/tmp/vault".into(), jots_folder: ".scribel/jots".into() };
    assert_eq!(config.jots_folder, ".scribel/jots");
    let create = CreateJotInput { content: "x".to_string() };
    let update = UpdateJotInput { id: "a".to_string(), content: create.content.clone() };
    assert_eq!(update.content, "x");
}
