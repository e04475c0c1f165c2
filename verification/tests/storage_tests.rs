use std::collections::HashMap;

use scribel::jots::models::{Jot, JotError, JotFrontmatter};
use scribel::jots::parser::{frontmatter_of, jot_from_header, serialize_jot};
use scribel::jots::storage::{
    create_jot, delete_jot, format_jot_id, generate_jot_id, jot_file_path, jot_id_at, new_jot,
    promoted_jot, read_jot, set_promoted, trimmed_content, update_jot, updated_jot,
    validate_content, MAX_CONTENT_CHARS,
};
use scribel::jots::time::{CivilTime, Timestamp, MAX_SECS, MIN_SECS};

fn stamp(text: &str) -> Timestamp {
    let at = text.parse::<chrono::DateTime<chrono::Utc>>().unwrap();
    Timestamp::new(at.timestamp(), at.timestamp_subsec_nanos()).unwrap()
}

fn rfc3339(at: &Timestamp) -> String {
    let at = chrono::DateTime::from_timestamp(at.secs(), at.subsec_nanos()).unwrap();
    at.to_rfc3339_opts(chrono::SecondsFormat::AutoSi, true)
}

fn strings(value: &serde_yaml::Value) -> Option<Vec<String>> {
    let mut out = Vec::new();
    for item in value.as_sequence()? {
        out.push(item.as_str()?.to_string());
    }
    Some(out)
}

fn decode_header(text: &str) -> Result<JotFrontmatter, String> {
    let value: serde_yaml::Value = serde_yaml::from_str(text).map_err(|e| e.to_string())?;
    let field = |name: &str| value.get(name).ok_or(format!("missing field `{}`", name));
    let text_of = |name: &str| {
        field(name)?.as_str().map(|s| s.to_string()).ok_or(format!("`{}` is no text", name))
    };
    let list_of = |name: &str| strings(field(name)?).ok_or(format!("`{}` is no list", name));
    Ok(JotFrontmatter {
        id: text_of("id")?,
        created: stamp(&text_of("created")?),
        modified: stamp(&text_of("modified")?),
        tags: list_of("tags")?,
        links: list_of("links")?,
        promoted: field("promoted")?.as_bool().ok_or("`promoted` is no flag".to_string())?,
    })
}

fn encode_header(header: &JotFrontmatter) -> String {
    let list = |items: &Vec<String>| {
        serde_yaml::Value::Sequence(
            items.iter().map(|s| serde_yaml::Value::String(s.clone())).collect(),
        )
    };
    let mut map = serde_yaml::Mapping::new();
    map.insert("id".into(), header.id.clone().into());
    map.insert("created".into(), rfc3339(&header.created).into());
    map.insert("modified".into(), rfc3339(&header.modified).into());
    map.insert("tags".into(), list(&header.tags));
    map.insert("links".into(), list(&header.links));
    map.insert("promoted".into(), header.promoted.into());
    serde_yaml::to_string(&map).unwrap()
}

/// A vault held in memory: the text of each file by its path.
struct Vault {
    files: HashMap<String, String>,
}

impl Vault {
    fn new() -> Vault {
        Vault { files: HashMap::new() }
    }

    fn write(&mut self, jot: &Jot) {
        let text = serialize_jot(jot, &encode_header(&frontmatter_of(jot)));
        self.files.insert(jot.file_path.clone(), text);
    }

    fn create(&mut self, content: &str) -> Result<Jot, JotError> {
        let jot = create_jot(content)?;
        self.write(&jot);
        Ok(jot)
    }

    fn read(&self, id: &str) -> Result<Jot, JotError> {
        let path = jot_file_path(id);
        let text = self.files.get(&path).map(|s| s.as_str());
        let (header, content) = read_jot(id, text)?;
        jot_from_header(decode_header(&header), content, &path)
    }

    fn update(&mut self, id: &str, content: &str) -> Result<Jot, JotError> {
        validate_content(content)?;
        let jot = update_jot(self.read(id), content)?;
        self.write(&jot);
        Ok(jot)
    }

    fn promote(&mut self, id: &str, promoted: bool) -> Result<Jot, JotError> {
        let jot = set_promoted(self.read(id), promoted)?;
        self.write(&jot);
        Ok(jot)
    }

    fn delete(&mut self, id: &str) -> Result<(), JotError> {
        let path = jot_file_path(id);
        delete_jot(id, self.files.contains_key(&path))?;
        self.files.remove(&path);
        Ok(())
    }
}

#[test]
fn test_generate_jot_id() {
    let id = generate_jot_id();
    assert!(id.starts_with("jot-"));
    assert!(id.len() > 20);
}

#[test]
fn test_create_and_read_jot() {
    let mut vault = Vault::new();

    let jot = vault.create("Test #tag [[Link]]").unwrap();

    assert!(jot.id.starts_with("jot-"));
    assert_eq!(jot.content, "Test #tag [[Link]]");
    assert_eq!(jot.tags, vec!["tag"]);
    assert_eq!(jot.links, vec!["Link"]);
    assert!(!jot.promoted);

    assert!(vault.files.contains_key(&jot.file_path));

    let fetched = vault.read(&jot.id).unwrap();
    assert_eq!(fetched.content, "Test #tag [[Link]]");
    assert_eq!(fetched.id, jot.id);
}

#[test]
fn test_update_jot() {
    let mut vault = Vault::new();

    let jot = vault.create("Original content").unwrap();
    let updated = vault.update(&jot.id, "Updated content #new").unwrap();

    assert_eq!(updated.content, "Updated content #new");
    assert_eq!(updated.tags, vec!["new"]);
    assert!(updated.modified_at > jot.created_at);

    let fetched = vault.read(&jot.id).unwrap();
    assert_eq!(fetched.content, "Updated content #new");
}

#[test]
fn test_delete_jot() {
    let mut vault = Vault::new();

    let jot = vault.create("To delete").unwrap();
    assert!(vault.files.contains_key(&jot.file_path));

    vault.delete(&jot.id).unwrap();

    assert!(!vault.files.contains_key(&jot.file_path));

    let result = vault.read(&jot.id);
    assert!(result.is_err());
}

#[test]
fn test_set_promoted() {
    let mut vault = Vault::new();

    let jot = vault.create("Test content").unwrap();
    assert!(!jot.promoted);

    let promoted = vault.promote(&jot.id, true).unwrap();
    assert!(promoted.promoted);

    let fetched = vault.read(&jot.id).unwrap();
    assert!(fetched.promoted);
}

#[test]
fn test_empty_content_validation() {
    let mut vault = Vault::new();

    let result = vault.create("   ");
    assert!(result.is_err());
    assert!(matches!(result, Err(JotError::ValidationError(_))));
}

#[test]
fn test_jot_not_found() {
    let vault = Vault::new();

    let result = vault.read("nonexistent-id");
    assert!(result.is_err());
    assert!(matches!(result, Err(JotError::NotFound(_))));
}

#[test]
fn update_scenario_replaces_tags_and_links() {
    let mut vault = Vault::new();
    let jot = vault.create("Test #tag [[Link]]").unwrap();
    let updated = vault.update(&jot.id, "Updated #new").unwrap();
    assert_eq!(updated.tags, vec!["new"]);
    assert!(updated.links.is_empty());
    assert!(updated.modified_at > jot.created_at);
    assert_eq!(updated.created_at, jot.created_at);
    assert_eq!(updated.id, jot.id);
    assert_eq!(updated.file_path, jot.file_path);
}

#[test]
fn delete_then_get_is_not_found() {
    let mut vault = Vault::new();
    let jot = vault.create("Gone soon").unwrap();
    vault.delete(&jot.id).unwrap();
    match vault.read(&jot.id) {
        Err(JotError::NotFound(id)) => assert_eq!(id, jot.id),
        other => panic!("{:?}", other),
    }
    match vault.delete(&jot.id) {
        Err(JotError::NotFound(id)) => assert_eq!(id, jot.id),
        other => panic!("{:?}", other),
    }
    match vault.update(&jot.id, "x") {
        Err(JotError::NotFound(id)) => assert_eq!(id, jot.id),
        other => panic!("{:?}", other),
    }
    assert!(matches!(vault.promote(&jot.id, true), Err(JotError::NotFound(_))));
}

#[test]
fn content_is_validated() {
    assert!(validate_content("x").is_ok());
    assert!(validate_content(" x ").is_ok());
    for blank in ["", " ", "\n", "\t \r\n", "\u{a0}\u{2003}\u{3000}"] {
        match validate_content(blank) {
            Err(JotError::ValidationError(reason)) => {
                assert_eq!(reason, "Content cannot be empty")
            }
            other => panic!("{:?}", other),
        }
    }
    let full = "x".repeat(MAX_CONTENT_CHARS);
    assert!(validate_content(&full).is_ok());
    let wide = "é".repeat(MAX_CONTENT_CHARS);
    assert!(validate_content(&wide).is_ok());
    let over = "x".repeat(MAX_CONTENT_CHARS + 1);
    match validate_content(&over) {
        Err(JotError::ValidationError(reason)) => {
            assert_eq!(reason, "Content exceeds 10,000 characters")
        }
        other => panic!("{:?}", other),
    }
    let padded = format!("{}x", " ".repeat(MAX_CONTENT_CHARS));
    assert!(matches!(validate_content(&padded), Err(JotError::ValidationError(_))));
    assert!(matches!(create_jot(&over), Err(JotError::ValidationError(_))));
}

#[test]
fn a_refused_content_is_reported_before_a_missing_jot() {
    let missing: Result<Jot, JotError> = Err(JotError::NotFound("x".to_string()));
    assert!(matches!(update_jot(missing, "  "), Err(JotError::ValidationError(_))));
    let missing: Result<Jot, JotError> = Err(JotError::NotFound("x".to_string()));
    assert!(matches!(update_jot(missing, "fine"), Err(JotError::NotFound(_))));
    let broken: Result<Jot, JotError> = Err(JotError::ParseError("bad".to_string()));
    assert!(matches!(set_promoted(broken, true), Err(JotError::ParseError(_))));
}

#[test]
fn content_is_trimmed() {
    assert_eq!(trimmed_content("  a b \n"), "a b");
    assert_eq!(trimmed_content("\u{2003}é\u{a0}"), "é");
    assert_eq!(trimmed_content(" \t "), "");
    for text in ["", "x", " x", "x ", "\r\n x \u{85}y\u{1680} \u{feff}", "\u{200b} z"] {
        assert_eq!(trimmed_content(text), text.trim());
    }
}

#[test]
fn a_new_jot_is_made_of_its_parts() {
    let now = stamp("2025-01-19T14:32:56.5Z");
    let jot = new_jot("  Test #tag [[Link]] #tag \n", "jot-x".to_string(), now);
    assert_eq!(jot.id, "jot-x");
    assert_eq!(jot.content, "Test #tag [[Link]] #tag");
    assert_eq!(jot.created_at, now);
    assert_eq!(jot.modified_at, now);
    assert_eq!(jot.tags, vec!["tag", "tag"]);
    assert_eq!(jot.links, vec!["Link"]);
    assert!(!jot.promoted);
    assert_eq!(jot.file_path, ".scribel/jots/jot-x.md");

    let later = stamp("2025-01-20T00:00:00Z");
    let changed = updated_jot(jot.clone(), " other [[A]] ", later);
    assert_eq!(changed.content, "other [[A]]");
    assert!(changed.tags.is_empty());
    assert_eq!(changed.links, vec!["A"]);
    assert_eq!(changed.created_at, now);
    assert_eq!(changed.modified_at, later);
    assert_eq!(changed.id, "jot-x");
    assert!(!changed.promoted);

    let raised = promoted_jot(changed.clone(), true, now);
    assert!(raised.promoted);
    assert_eq!(raised.modified_at, now);
    assert_eq!(raised.content, changed.content);
    assert_eq!(raised.links, changed.links);
    assert!(!promoted_jot(raised, false, later).promoted);
}

#[test]
fn the_file_of_a_jot_follows_from_its_id() {
    assert_eq!(jot_file_path("jot-1"), ".scribel/jots/jot-1.md");
    assert_eq!(jot_file_path(""), ".scribel/jots/.md");
}

#[test]
fn identifiers_are_laid_out_as_documented() {
    let at = CivilTime { year: 2025, month: 1, day: 19, hour: 14, minute: 32, second: 56 };
    assert_eq!(format_jot_id(at, 0, 0xa1b2), "jot-2025-01-19-143256-a1b2");
    assert_eq!(format_jot_id(at, 999_999_999, 0), "jot-2025-01-19-143256-0000");
    assert_eq!(format_jot_id(at, 0, 0xffff), "jot-2025-01-19-143256-ffff");
    assert_eq!(format_jot_id(at, 0, 0x00f0), "jot-2025-01-19-143256-00f0");
    let early = CivilTime { year: 7, month: 12, day: 1, hour: 0, minute: 0, second: 9 };
    assert_eq!(format_jot_id(early, 0, 1), "jot-0007-12-01-000009-0001");
    let leap = CivilTime { year: 2016, month: 12, day: 31, hour: 23, minute: 59, second: 59 };
    assert_eq!(format_jot_id(leap, 1_000_000_000, 2), "jot-2016-12-31-235960-0002");
}

#[test]
fn identifiers_agree_with_the_time_format() {
    for (secs, nanos) in [
        (0, 0),
        (1_737_297_176, 123),
        (-1, 0),
        (951_782_399, 1_500_000_000),
        (253_402_300_799, 0),
        (253_402_300_800, 0),
        (-62_167_219_200, 0),
        (-62_167_219_201, 0),
        (-62_198_755_200, 0),
        (MIN_SECS, 0),
        (MAX_SECS, 1_999_999_999),
    ] {
        let at = Timestamp::new(secs, nanos).unwrap();
        let theirs = chrono::DateTime::from_timestamp(secs, nanos).unwrap();
        let expected = format!("jot-{}-0a0b", theirs.format("%Y-%m-%d-%H%M%S"));
        assert_eq!(jot_id_at(&at, 0x0a0b), expected);
    }
}

#[test]
fn fresh_identifiers_have_the_shape() {
    for _ in 0..50 {
        let id = generate_jot_id();
        assert_eq!(id.len(), 26);
        assert!(id.starts_with("jot-20"));
        let suffix = &id[22..];
        assert!(suffix.chars().all(|c| c.is_ascii_digit() || ('a'..='f').contains(&c)));
        assert_eq!(&id[21..22], "-");
    }
}
