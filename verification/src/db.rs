//! The brain's records: the key a page is stored under, the chunk rows of a
//! page, and the decision of what storing a page does. The SQLite database
//! itself stands outside the library.
use vstd::prelude::*;

use crate::ingest::{sha256, sha256_hex};
use crate::text::{append_chars, chars_of, same_text, string_of};

verus! {

broadcast use vstd::string::group_string_axioms;

/// One row of the cycles ledger.
#[derive(Clone, Debug)]
pub struct CycleRow {
    pub id: i64,
    pub started: i64,
    pub ended: i64,
    pub vault: String,
    pub discovered: i64,
    pub imported: i64,
    pub skipped: i64,
    pub embedded: i64,
    pub exported: i64,
    pub status: String,
    pub detail_json: String,
}

/// What storing a page with a given content hash does to the brain.
#[derive(Clone, Copy, Debug, PartialEq, Eq, Structural)]
pub enum UpsertPlan {
    /// The page is stored with this hash already: nothing is written, and
    /// the page counts as unchanged.
    Unchanged(i64),
    /// The page is stored with another hash: its title, mtime and hash are
    /// rewritten and its chunks deleted, to be stored anew.
    Rewrite(i64),
    /// The page is new: it is inserted.
    Insert,
}

/// The plan for storing a page, given what the brain holds at its path
/// (the page's id and hash, if it is there).
pub open spec fn upsert_plan(existing: Option<(i64, Seq<char>)>, hash: Seq<char>) -> UpsertPlan {
    match existing {
        None => UpsertPlan::Insert,
        Some((id, h)) => if h == hash {
            UpsertPlan::Unchanged(id)
        } else {
            UpsertPlan::Rewrite(id)
        },
    }
}

impl UpsertPlan {
    /// Whether the plan counts the page as changed: everything but an
    /// unchanged page is.
    pub open spec fn is_change(self) -> bool {
        !(self is Unchanged)
    }
}

/// The decision of `upsert_page`: skip a page whose stored hash is the
/// same, rewrite one whose hash differs, insert one not stored yet.
pub fn plan_upsert(existing: Option<(i64, String)>, hash: &str) -> (plan: UpsertPlan)
    ensures
        plan == upsert_plan(
            match existing {
                Some((id, h)) => Some((id, h@)),
                None => None,
            },
            hash@,
        ),
        !plan.is_change() <==> (existing matches Some((_, h)) && h@ == hash@),
{
    match existing {
        None => UpsertPlan::Insert,
        Some((id, h)) => if same_text(h.as_str(), hash) {
            UpsertPlan::Unchanged(id)
        } else {
            UpsertPlan::Rewrite(id)
        },
    }
}

/// A page's key in the brain: its vault's id, a colon, and its path
/// relative to the vault.
pub open spec fn page_key_of(vault_id: Seq<char>, rel: Seq<char>) -> Seq<char> {
    vault_id + seq![':'] + rel
}

/// The key a page of vault `vault_id` at relative path `rel` is stored
/// under.
pub fn page_key(vault_id: &str, rel: &str) -> (out: String)
    ensures
        out@ == page_key_of(vault_id@, rel@),
{
    let mut v = chars_of(vault_id);
    v.push(':');
    let r = chars_of(rel);
    append_chars(&mut v, &r);
    string_of(&v)
}

/// One chunk row of a page: its position, its text and the SHA-256 hex
/// digest of its text.
#[derive(Clone, Debug)]
pub struct ChunkRecord {
    pub ord: usize,
    pub content: String,
    pub hash: String,
}

/// The chunk rows of a page whose chunks are `chunks`: one per chunk, in
/// order, numbered from zero, each with the hash of its text.
pub fn chunk_records(chunks: &Vec<String>) -> (out: Vec<ChunkRecord>)
    ensures
        out@.len() == chunks@.len(),
        forall|i: int|
            0 <= i < out@.len() ==> {
                &&& #[trigger] out@[i].ord == i
                &&& out@[i].content@ == chunks@[i]@
                &&& out@[i].hash@ == sha256_hex(chunks@[i]@)
            },
{
    let mut out: Vec<ChunkRecord> = Vec::new();
    let mut i: usize = 0;
    while i < chunks.len()
        invariant
            i <= chunks@.len(),
            out@.len() == i,
            forall|j: int|
                0 <= j < i ==> {
                    &&& #[trigger] out@[j].ord == j
                    &&& out@[j].content@ == chunks@[j]@
                    &&& out@[j].hash@ == sha256_hex(chunks@[j]@)
                },
        decreases chunks.len() - i,
    {
        let c = chars_of(chunks[i].as_str());
        let content = string_of(&c);
        let hash = sha256(chunks[i].as_str());
        out.push(ChunkRecord { ord: i, content, hash });
        i = i + 1;
    }
    out
}

/// A page stored with the hash of its text is unchanged when the same text
/// is stored again: the hash is a function of the text.
pub proof fn lemma_same_text_unchanged(id: i64, text: Seq<char>)
    ensures
        upsert_plan(Some((id, sha256_hex(text))), sha256_hex(text)) == UpsertPlan::Unchanged(id),
        !upsert_plan(Some((id, sha256_hex(text))), sha256_hex(text)).is_change(),
{
}

} // verus!
