//! Counting the tokens of a text for a model's byte-pair encoding.

use std::collections::HashSet;
use vstd::prelude::*;

verus! {

/// Whether the tokenizer tables hold an encoding for the model of this
/// name.
pub uninterp spec fn model_known(name: Seq<char>) -> bool;

/// The number of tokens into which the encoding of the model of this name
/// cuts `content`, the special tokens that `allowed` names taken as such;
/// `None` where there is no encoding for the name, or the encoding gives up on
/// the text.
pub uninterp spec fn token_count(model: Seq<char>, content: Seq<char>, allowed: Set<Seq<char>>)
    -> Option<usize>;

/// A counting handle for one model's encoding: the name of the model.
pub struct Tokenizer {
    pub model: String,
}

/// The strings of a list, as a set: order and repeats do not count.
pub open spec fn names(list: Seq<String>) -> Set<Seq<char>> {
    Set::new(|s: Seq<char>| exists|i: int| 0 <= i < list.len() && (#[trigger] list[i])@ == s)
}

/// The special tokens that a call of `count` allows: those of the list,
/// none where there is no list.
pub open spec fn allowed_names(allowed_special: Option<Vec<String>>) -> Set<Seq<char>> {
    match allowed_special {
        Some(list) => names(list@),
        None => Set::empty(),
    }
}

/// `tiktoken_rs::bpe_for_model`: whether the tables hold an encoding for
/// the model of this name.
#[verifier::external_body]
fn has_encoding(model: &str) -> (r: bool)
    ensures
        r == model_known(model@),
{
    match tiktoken_rs::bpe_for_model(model) {
        Ok(_) => true,
        Err(_) => false,
    }
}

/// `tiktoken_rs::CoreBPE::encode`, on the shared encoding of the model of
/// this name: the number of tokens into which it cuts the text, the special
/// tokens among `allowed` taken as such, whatever their order in the list;
/// `None` where there is no encoding for the name, or the encoding gives up
/// on the text.
#[verifier::external_body]
fn encoded_len(model: &str, content: &str, allowed: &Vec<String>) -> (r: Option<usize>)
    ensures
        r == token_count(model@, content@, names(allowed@)),
{
    let set: HashSet<&str> = allowed.iter().map(|s| s.as_str()).collect();
    match tiktoken_rs::bpe_for_model(model) {
        Ok(bpe) => match bpe.encode(content, &set) {
            Ok(tokens) => Some(tokens.0.len()),
            Err(_) => None,
        },
        Err(_) => None,
    }
}

/// The counting handle for the model of this name, where there is an
/// encoding for it.
pub fn from_model_name(model_name: String) -> (r: Option<Tokenizer>)
    ensures
        r is Some <==> model_known(model_name@),
        r is Some ==> r->Some_0.model@ == model_name@,
{
    if has_encoding(model_name.as_str()) {
        Some(Tokenizer { model: model_name })
    } else {
        None
    }
}

/// The count that a length stands for: the length in 32 bits, and 0 for a
/// text that could not be encoded.
pub open spec fn total_of(len: Option<usize>) -> u32 {
    match len {
        Some(n) => ((n as u64) % 0x1_0000_0000) as u32,
        None => 0,
    }
}

/// The count that a length stands for.
pub fn token_total(len: Option<usize>) -> (r: u32)
    ensures
        r == total_of(len),
{
    match len {
        Some(n) => ((n as u64) % 0x1_0000_0000) as u32,
        None => 0,
    }
}

impl Tokenizer {
    /// The number of tokens in `content`, in 32 bits. Special tokens count
    /// as such only where `allowed_special` names them.
    pub fn count(&self, content: String, allowed_special: Option<Vec<String>>) -> (r: u32)
        ensures
            r == total_of(token_count(self.model@, content@, allowed_names(allowed_special))),
    {
        let allowed = match allowed_special {
            Some(list) => list,
            None => {
                let none: Vec<String> = Vec::new();
                assert(names(none@) =~= Set::<Seq<char>>::empty());
                none
            },
        };
        let len = encoded_len(self.model.as_str(), content.as_str(), &allowed);
        token_total(len)
    }
}

} // verus!
