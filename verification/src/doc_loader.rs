//! Parsed documents for the host: a name and the text of a document cut
//! into numbered chunks.

use crate::any::str_from_utf8;
use crate::doc::push_char;
use vstd::prelude::*;
use vstd::string::StrSliceExecFns;
use vstd::utf8::{decode_utf8, encode_utf8_decode_utf8, valid_utf8};

verus! {

/// A piece of a document's text with its place among the pieces.
#[derive(Debug, PartialEq, Eq)]
pub struct Chunk {
    pub index: i64,
    pub content: String,
}

/// A document as the host receives it.
#[derive(Debug, PartialEq, Eq)]
pub struct ParsedDoc {
    pub name: String,
    pub chunks: Vec<Chunk>,
}

/// A loaded document: its name and the text of its chunks, in order.
#[derive(Debug, PartialEq, Eq)]
pub struct Document {
    pub name: String,
    pub chunks: Vec<String>,
}

/// Why a document could not be loaded.
#[derive(Clone, Copy, Debug, PartialEq, Eq, Structural)]
pub enum LoaderError {
    /// The extracted text is not UTF-8.
    InvalidUtf8,
}

/// The first `n` characters of a text without the NUL characters among
/// them.
pub open spec fn cleaned_to(text: Seq<char>, n: int) -> Seq<char>
    decreases n,
{
    if n <= 0 {
        Seq::empty()
    } else if text[n - 1] == '\0' {
        cleaned_to(text, n - 1)
    } else {
        cleaned_to(text, n - 1).push(text[n - 1])
    }
}

/// A text without its NUL characters, which a text column cannot store.
pub open spec fn cleaned(text: Seq<char>) -> Seq<char> {
    cleaned_to(text, text.len() as int)
}

/// The content of a chunk as it is handed on: without NUL characters.
pub fn clean_content(content: &str) -> (r: String)
    ensures
        r@ == cleaned(content@),
{
    let n = content.unicode_len();
    let mut out = String::new();
    let mut i: usize = 0;
    while i < n
        invariant
            i <= n,
            n == content@.len(),
            out@ == cleaned_to(content@, i as int),
        decreases n - i,
    {
        let c = content.get_char(i);
        if c != '\0' {
            push_char(&mut out, c);
        }
        i += 1;
    }
    out
}

impl Document {
    /// The name of the document.
    pub fn name(&self) -> (r: String)
        ensures
            r@ == self.name@,
    {
        self.name.clone()
    }

    /// The chunks of the document, each with its index and its cleaned
    /// content.
    pub fn chunks(&self) -> (r: Vec<Chunk>)
        ensures
            r.len() == self.chunks.len(),
            forall|i: int|
                0 <= i < r.len() ==> (#[trigger] r[i]).content@ == cleaned(self.chunks[i]@) && (i
                    <= i64::MAX ==> r[i].index == i),
    {
        let mut out: Vec<Chunk> = Vec::new();
        let mut i: usize = 0;
        while i < self.chunks.len()
            invariant
                i <= self.chunks.len(),
                out.len() == i,
                forall|j: int|
                    0 <= j < i ==> (#[trigger] out[j]).content@ == cleaned(self.chunks[j]@) && (j
                        <= i64::MAX ==> out[j].index == j),
            decreases self.chunks.len() - i,
        {
            let index = #[verifier::truncate]
            (i as i64);
            out.push(Chunk { index, content: clean_content(self.chunks[i].as_str()) });
            i += 1;
        }
        out
    }
}

/// A request to parse a document: where it came from, and its bytes.
#[derive(Debug, PartialEq, Eq)]
pub struct AsyncParseDocResponse {
    pub file_path: String,
    pub doc: Vec<u8>,
}

impl AsyncParseDocResponse {
    /// What the host receives for a loaded document.
    pub fn resolve(&mut self, doc: Document) -> (r: ParsedDoc)
        ensures
            *final(self) == *old(self),
            r.name@ == doc.name@,
            r.chunks.len() == doc.chunks.len(),
            forall|i: int|
                0 <= i < r.chunks.len() ==> (#[trigger] r.chunks[i]).content@ == cleaned(
                    doc.chunks[i]@,
                )
                    && (i <= i64::MAX ==> r.chunks[i].index == i),
    {
        ParsedDoc { name: doc.name(), chunks: doc.chunks() }
    }
}

/// The request to parse the bytes of the file at `file_path`.
pub fn parse_doc(file_path: String, doc: Vec<u8>) -> (r: AsyncParseDocResponse)
    ensures
        r.file_path == file_path,
        r.doc == doc,
{
    AsyncParseDocResponse { file_path, doc }
}

/// The text that a text extractor wrote into `buffer`.
pub fn text_from_output(buffer: &Vec<u8>) -> (r: Result<String, LoaderError>)
    ensures
        match r {
            Ok(s) => valid_utf8(buffer@) && s@ == decode_utf8(buffer@),
            Err(e) => e == LoaderError::InvalidUtf8 && !valid_utf8(buffer@),
        },
{
    match str_from_utf8(buffer.as_slice()) {
        Some(s) => {
            proof {
                encode_utf8_decode_utf8(s@);
            }
            Ok(s.to_owned())
        },
        None => Err(LoaderError::InvalidUtf8),
    }
}

} // verus!
