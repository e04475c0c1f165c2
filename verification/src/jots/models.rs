//! The record types: a jot, its header, the inputs of the operations and the
//! errors they report.

use crate::jots::time::{Instant, Timestamp};
use crate::text::{clone_strings, push_str, texts};
use vstd::prelude::*;

verus! {

/// A jot as held in memory.
#[derive(Debug)]
pub struct Jot {
    /// Unique identifier, `jot-YYYY-MM-DD-HHMMSS-XXXX`.
    pub id: String,
    /// The text of the jot, without its header.
    pub content: String,
    /// When the jot was created.
    pub created_at: Timestamp,
    /// When the jot was last modified.
    pub modified_at: Timestamp,
    /// Tags found in the content, without their `#`.
    pub tags: Vec<String>,
    /// Links found in the content, without their brackets.
    pub links: Vec<String>,
    /// Whether the jot has been promoted to a full note.
    pub promoted: bool,
    /// Path of the jot's file, relative to the vault root.
    pub file_path: String,
}

/// What a [`Jot`] holds, as mathematical values.
pub struct JotView {
    pub id: Seq<char>,
    pub content: Seq<char>,
    pub created_at: Instant,
    pub modified_at: Instant,
    pub tags: Seq<Seq<char>>,
    pub links: Seq<Seq<char>>,
    pub promoted: bool,
    pub file_path: Seq<char>,
}

impl View for Jot {
    type V = JotView;

    open spec fn view(&self) -> JotView {
        JotView {
            id: self.id@,
            content: self.content@,
            created_at: self.created_at@,
            modified_at: self.modified_at@,
            tags: texts(self.tags@),
            links: texts(self.links@),
            promoted: self.promoted,
            file_path: self.file_path@,
        }
    }
}

impl Clone for Jot {
    fn clone(&self) -> (out: Jot)
        ensures
            out@ == self@,
    {
        Jot {
            id: self.id.clone(),
            content: self.content.clone(),
            created_at: self.created_at,
            modified_at: self.modified_at,
            tags: clone_strings(&self.tags),
            links: clone_strings(&self.links),
            promoted: self.promoted,
            file_path: self.file_path.clone(),
        }
    }
}

/// Input for creating a jot.
#[derive(Debug)]
pub struct CreateJotInput {
    pub content: String,
}

impl Clone for CreateJotInput {
    fn clone(&self) -> (out: CreateJotInput)
        ensures
            out.content@ == self.content@,
    {
        CreateJotInput { content: self.content.clone() }
    }
}

/// Input for updating a jot.
#[derive(Debug)]
pub struct UpdateJotInput {
    pub id: String,
    pub content: String,
}

impl Clone for UpdateJotInput {
    fn clone(&self) -> (out: UpdateJotInput)
        ensures
            out.id@ == self.id@,
            out.content@ == self.content@,
    {
        UpdateJotInput { id: self.id.clone(), content: self.content.clone() }
    }
}

/// The header that precedes a jot's content in its file.
#[derive(Debug)]
pub struct JotFrontmatter {
    pub id: String,
    pub created: Timestamp,
    pub modified: Timestamp,
    pub tags: Vec<String>,
    pub links: Vec<String>,
    pub promoted: bool,
}

/// What a [`JotFrontmatter`] holds, as mathematical values.
pub struct JotFrontmatterView {
    pub id: Seq<char>,
    pub created: Instant,
    pub modified: Instant,
    pub tags: Seq<Seq<char>>,
    pub links: Seq<Seq<char>>,
    pub promoted: bool,
}

impl View for JotFrontmatter {
    type V = JotFrontmatterView;

    open spec fn view(&self) -> JotFrontmatterView {
        JotFrontmatterView {
            id: self.id@,
            created: self.created@,
            modified: self.modified@,
            tags: texts(self.tags@),
            links: texts(self.links@),
            promoted: self.promoted,
        }
    }
}

impl Clone for JotFrontmatter {
    fn clone(&self) -> (out: JotFrontmatter)
        ensures
            out@ == self@,
    {
        JotFrontmatter {
            id: self.id.clone(),
            created: self.created,
            modified: self.modified,
            tags: clone_strings(&self.tags),
            links: clone_strings(&self.links),
            promoted: self.promoted,
        }
    }
}

/// What can go wrong in an operation on jots. Each variant that has one
/// carries the detail of the failure as text.
#[derive(Debug)]
pub enum JotError {
    /// No jot with this identifier exists.
    NotFound(String),
    /// A file could not be read, written or removed.
    FileError(String),
    /// A jot file does not have the expected shape.
    ParseError(String),
    /// The index could not carry out a request.
    DbError(String),
    /// No vault has been set up.
    VaultNotConfigured,
    /// The content or query handed in is not acceptable.
    ValidationError(String),
    /// A header could not be read as structured data.
    YamlError(String),
}

/// What a [`JotError`] holds, as mathematical values.
pub enum JotErrorView {
    NotFound(Seq<char>),
    FileError(Seq<char>),
    ParseError(Seq<char>),
    DbError(Seq<char>),
    VaultNotConfigured,
    ValidationError(Seq<char>),
    YamlError(Seq<char>),
}

impl View for JotError {
    type V = JotErrorView;

    open spec fn view(&self) -> JotErrorView {
        match self {
            JotError::NotFound(s) => JotErrorView::NotFound(s@),
            JotError::FileError(s) => JotErrorView::FileError(s@),
            JotError::ParseError(s) => JotErrorView::ParseError(s@),
            JotError::DbError(s) => JotErrorView::DbError(s@),
            JotError::VaultNotConfigured => JotErrorView::VaultNotConfigured,
            JotError::ValidationError(s) => JotErrorView::ValidationError(s@),
            JotError::YamlError(s) => JotErrorView::YamlError(s@),
        }
    }
}

impl JotErrorView {
    /// The text shown to a user for this error.
    pub open spec fn message(self) -> Seq<char> {
        match self {
            JotErrorView::NotFound(s) => "Jot not found: "@ + s,
            JotErrorView::FileError(s) => "File operation failed: "@ + s,
            JotErrorView::ParseError(s) => "Invalid jot format: "@ + s,
            JotErrorView::DbError(s) => "Database error: "@ + s,
            JotErrorView::VaultNotConfigured => "Vault not configured"@,
            JotErrorView::ValidationError(s) => "Invalid content: "@ + s,
            JotErrorView::YamlError(s) => "YAML parsing error: "@ + s,
        }
    }
}

impl Clone for JotError {
    fn clone(&self) -> (out: JotError)
        ensures
            out@ == self@,
    {
        match self {
            JotError::NotFound(s) => JotError::NotFound(s.clone()),
            JotError::FileError(s) => JotError::FileError(s.clone()),
            JotError::ParseError(s) => JotError::ParseError(s.clone()),
            JotError::DbError(s) => JotError::DbError(s.clone()),
            JotError::VaultNotConfigured => JotError::VaultNotConfigured,
            JotError::ValidationError(s) => JotError::ValidationError(s.clone()),
            JotError::YamlError(s) => JotError::YamlError(s.clone()),
        }
    }
}

impl JotError {
    /// The text shown to a user for this error.
    pub fn message(&self) -> (out: String)
        ensures
            out@ == self@.message(),
    {
        let (prefix, detail): (&str, &str) = match self {
            JotError::NotFound(s) => ("Jot not found: ", s.as_str()),
            JotError::FileError(s) => ("File operation failed: ", s.as_str()),
            JotError::ParseError(s) => ("Invalid jot format: ", s.as_str()),
            JotError::DbError(s) => ("Database error: ", s.as_str()),
            JotError::VaultNotConfigured => ("Vault not configured", ""),
            JotError::ValidationError(s) => ("Invalid content: ", s.as_str()),
            JotError::YamlError(s) => ("YAML parsing error: ", s.as_str()),
        };
        proof {
            reveal_strlit("");
        }
        let mut out = String::new();
        push_str(&mut out, prefix);
        push_str(&mut out, detail);
        assert(out@ =~= prefix@ + detail@);
        assert(self is VaultNotConfigured ==> prefix@ + detail@ =~= prefix@);
        out
    }
}

impl From<JotError> for String {
    /// The text shown to a user for the error.
    fn from(err: JotError) -> (out: String)
        ensures
            out@ == err@.message(),
    {
        err.message()
    }
}

/// The conversion is stated over the text of the result, as above; the
/// equation between strings that the trait could offer is not claimed.
impl vstd::std_specs::convert::FromSpecImpl<JotError> for String {
    open spec fn obeys_from_spec() -> bool {
        false
    }

    open spec fn from_spec(err: JotError) -> String {
        arbitrary()
    }
}

/// The view of the outcome of an operation that yields a jot.
pub open spec fn outcome_view(r: Result<Jot, JotError>) -> Result<JotView, JotErrorView> {
    match r {
        Ok(jot) => Ok(jot@),
        Err(e) => Err(e@),
    }
}

} // verus!
