//! Records kept about a corpus and its indexing: indexing status and progress, tracked
//! files and chunks, delta-scan results and corpus summaries.
use vstd::prelude::*;

use crate::text::{all_ascii, ascii_lower_seq, str_to_lowercase, string_eq, unicode_lowercase};

verus! {

/// Status of an indexing operation for a corpus.
#[derive(Debug, Clone, Copy, PartialEq, Eq, Structural)]
pub enum IndexingStatus {
    /// No indexing job in progress.
    Idle,
    /// Actively indexing files in batches.
    Indexing,
    /// Indexing is paused.
    Paused,
    /// Indexing encountered an error.
    Error,
    /// All discovered files successfully indexed.
    Completed,
}

/// The lower-case name of a status.
pub open spec fn status_name(s: IndexingStatus) -> Seq<char> {
    match s {
        IndexingStatus::Idle => "idle"@,
        IndexingStatus::Indexing => "indexing"@,
        IndexingStatus::Paused => "paused"@,
        IndexingStatus::Error => "error"@,
        IndexingStatus::Completed => "completed"@,
    }
}

/// The status a stored name denotes, ignoring case; an unknown name denotes `Idle`.
pub open spec fn status_from_name(s: Seq<char>) -> IndexingStatus {
    status_by_lower(unicode_lowercase(s))
}

/// The status a lower-cased name denotes; an unknown name denotes `Idle`.
pub open spec fn status_by_lower(l: Seq<char>) -> IndexingStatus {
    if l == "indexing"@ {
        IndexingStatus::Indexing
    } else if l == "paused"@ {
        IndexingStatus::Paused
    } else if l == "error"@ {
        IndexingStatus::Error
    } else if l == "completed"@ {
        IndexingStatus::Completed
    } else {
        IndexingStatus::Idle
    }
}

impl IndexingStatus {
    /// The lower-case name of the status, as it is displayed and stored.
    pub fn as_str(&self) -> (r: &'static str)
        ensures
            r@ == status_name(*self),
    {
        match self {
            IndexingStatus::Idle => "idle",
            IndexingStatus::Indexing => "indexing",
            IndexingStatus::Paused => "paused",
            IndexingStatus::Error => "error",
            IndexingStatus::Completed => "completed",
        }
    }

    /// The status a stored name denotes, ignoring case; an unknown name gives `Idle`.
    pub fn from_name(s: &str) -> (r: IndexingStatus)
        ensures
            r == status_from_name(s@),
            all_ascii(s@) ==> r == status_by_lower(ascii_lower_seq(s@)),
    {
        let l = str_to_lowercase(s);
        let ls = l.as_str();
        if crate::text::str_eq(ls, "indexing") {
            IndexingStatus::Indexing
        } else if crate::text::str_eq(ls, "paused") {
            IndexingStatus::Paused
        } else if crate::text::str_eq(ls, "error") {
            IndexingStatus::Error
        } else if crate::text::str_eq(ls, "completed") {
            IndexingStatus::Completed
        } else {
            IndexingStatus::Idle
        }
    }
}

/// Reading a status back from its name gives the status: the name is ASCII and lower case,
/// so `IndexingStatus::from_name` of it is the status.
pub proof fn lemma_status_name_round_trip(s: IndexingStatus)
    ensures
        all_ascii(status_name(s)),
        ascii_lower_seq(status_name(s)) == status_name(s),
        status_by_lower(ascii_lower_seq(status_name(s))) == s,
{
    reveal_strlit("idle");
    reveal_strlit("indexing");
    reveal_strlit("paused");
    reveal_strlit("error");
    reveal_strlit("completed");
    assert("idle"@.len() == 4 && "indexing"@.len() == 8 && "paused"@.len() == 6 && "error"@.len() == 5
        && "completed"@.len() == 9);
    assert(ascii_lower_seq(status_name(s)) =~= status_name(s));
    match s {
        IndexingStatus::Idle => {
            assert("idle"@ != "indexing"@ && "idle"@ != "paused"@ && "idle"@ != "error"@ && "idle"@ != "completed"@);
        },
        IndexingStatus::Indexing => {},
        IndexingStatus::Paused => {
            assert("paused"@ != "indexing"@);
        },
        IndexingStatus::Error => {
            assert("error"@ != "indexing"@ && "error"@ != "paused"@);
        },
        IndexingStatus::Completed => {
            assert("completed"@ != "indexing"@ && "completed"@ != "paused"@ && "completed"@ != "error"@);
        },
    }
}

/// State tracking record for resumable paginated indexing.
#[derive(Debug, Clone)]
pub struct IndexingState {
    /// Corpus identifier/name.
    pub corpus_id: String,
    /// Current indexing status.
    pub status: IndexingStatus,
    /// Total markdown files discovered in corpus.
    pub total_files: usize,
    /// Count of markdown files successfully committed.
    pub indexed_files: usize,
    /// Relative path of the last committed file.
    pub last_processed_path: Option<String>,
    /// When indexing started (Unix timestamp seconds).
    pub started_at: i64,
    /// When state was last updated (Unix timestamp seconds).
    pub updated_at: i64,
    /// Error message if status is Error.
    pub error_message: Option<String>,
}

/// A tracked file in the index.
#[derive(Debug, Clone)]
pub struct FileRecord {
    /// Relative path within the corpus.
    pub path: String,
    /// BLAKE3 content hash.
    pub content_hash: String,
    /// File modification time as Unix timestamp (seconds).
    pub modified_at: i64,
    /// Template declared in frontmatter.
    pub template: Option<String>,
    /// Document title.
    pub title: Option<String>,
    /// When this file was last indexed (Unix timestamp seconds).
    pub indexed_at: i64,
}

/// A text chunk stored for a file.
#[derive(Debug, Clone)]
pub struct ChunkRecord {
    /// Zero-based index within the parent document.
    pub chunk_index: usize,
    /// Byte offset of chunk start in the document content.
    pub start_byte: usize,
    /// Byte offset of chunk end in the document content.
    pub end_byte: usize,
    /// The text content of this chunk.
    pub text: String,
}

/// Result of a delta scan comparing filesystem state against the index.
#[derive(Debug, Clone)]
pub struct DeltaScanResult {
    /// Files that exist on disk but were not previously indexed.
    pub new_files: Vec<String>,
    /// Files whose content hash changed since last indexing.
    pub modified_files: Vec<String>,
    /// Files that were indexed but no longer exist on disk.
    pub deleted_files: Vec<String>,
}

/// Status information for a single corpus.
#[derive(Debug, Clone)]
pub struct CorpusInfo {
    /// Corpus name.
    pub name: String,
    /// Path to the corpus directory.
    pub path: String,
    /// Access mode (read-write or read-only).
    pub mode: String,
    /// Number of indexed files.
    pub file_count: usize,
    /// Whether the embedder is active for this corpus.
    pub embedder_active: bool,
    /// Number of vectors in the index.
    pub vector_count: usize,
    /// Number of nodes in the knowledge graph.
    pub graph_node_count: usize,
}

} // verus!
