//! Calls into std functions that vstd leaves unspecified, and into the outside crates
//! this library builds on. Each item here is trusted: its contract is believed, not proved.
use vstd::prelude::*;
use crate::memory::StatelessRecord;
use sha2::Digest;

verus! {

/// `String::from_iter` over characters: claims that the string holds exactly the given
/// characters, in order.
#[verifier::external_body]
pub(crate) fn string_from_chars(chars: &[char]) -> (r: String)
    ensures
        r@ == chars@,
{
    chars.iter().collect::<String>()
}

/// The compact JSON text that `serde_json` writes for an object whose members are
/// `id`, `content` (both strings) and `tags` (an array of strings), inserted in that order.
pub uninterp spec fn json_id_content_tags(
    id: Seq<char>,
    content: Seq<char>,
    tags: Seq<Seq<char>>,
) -> Seq<char>;

/// Builds a `serde_json::Value` object with members `id`, `content` and `tags` and writes
/// it with `Value`'s `Display` (compact JSON). Claims that the text is a function of the
/// three arguments, named [`json_id_content_tags`]; that it is a JSON object, so its first
/// character is `{`; and that `serde_json::from_str` reads it back (see
/// [`json_stateless_record`]) as the same identifier, content and tags. The member order
/// in the text depends on whether serde_json's `preserve_order` feature is on in the
/// build, and is not stated.
#[verifier::external_body]
pub(crate) fn json_id_content_tags_text(id: &str, content: &str, tags: &Vec<String>) -> (r:
    String)
    ensures
        r@ == json_id_content_tags(id@, content@, tags.deep_view()),
        r@.len() > 0 && r@[0] == '{',
        json_stateless_record(r@) == Some(
            (Some(id@), Some(content@), Some(tags.deep_view().map_values(|t: Seq<char>| Some(t)))),
        ),
{
    let mut object = serde_json::Map::new();
    object.insert("id".to_string(), serde_json::Value::from(id));
    object.insert("content".to_string(), serde_json::Value::from(content));
    object.insert("tags".to_string(), serde_json::Value::from(tags.clone()));
    serde_json::Value::Object(object).to_string()
}

/// What the English Snowball stemmer of `rust_stemmers` makes of a word.
pub uninterp spec fn english_stem(word: Seq<char>) -> Seq<char>;

/// `rust_stemmers::Stemmer::stem` with `Algorithm::English`: claims only that the stem is
/// a function of the word, named [`english_stem`].
#[verifier::external_body]
pub(crate) fn stem_english(word: &str) -> (r: String)
    ensures
        r@ == english_stem(word@),
{
    rust_stemmers::Stemmer::create(rust_stemmers::Algorithm::English).stem(word).to_string()
}

/// What `serde_json` reads from one line of `brain.ndjson`: `None` when the line is not
/// JSON; otherwise the string members `id` and `content` (`None` when absent or not a
/// string) and the array member `tags` with each element as a string or `None`.
pub uninterp spec fn json_stateless_record(line: Seq<char>) -> Option<
    (Option<Seq<char>>, Option<Seq<char>>, Option<Seq<Option<Seq<char>>>>),
>;

/// `serde_json::from_str::<Value>` on one line, then `as_str` on the members `id` and
/// `content` and `as_array` (with `as_str` on each element) on the member `tags`.
/// Claims that the result is a function of the line, named [`json_stateless_record`].
#[verifier::external_body]
pub(crate) fn parse_stateless_record(line: &str) -> (r: Option<StatelessRecord>)
    ensures
        r.deep_view() == json_stateless_record(line@),
{
    match serde_json::from_str::<serde_json::Value>(line) {
        Ok(v) => Some(StatelessRecord {
            id: v["id"].as_str().map(String::from),
            content: v["content"].as_str().map(String::from),
            tags: v["tags"].as_array().map(
                |a| a.iter().map(|t| t.as_str().map(String::from)).collect(),
            ),
        }),
        Err(_) => None,
    }
}

/// The lower-case form of a string under Unicode's case mapping, as `str::to_lowercase`
/// computes it.
pub uninterp spec fn lowercase(s: Seq<char>) -> Seq<char>;

/// `str::to_lowercase`: claims only that the result is a function of the string, named
/// [`lowercase`].
#[verifier::external_body]
pub(crate) fn to_lowercase(s: &str) -> (r: String)
    ensures
        r@ == lowercase(s@),
{
    s.to_lowercase()
}

/// The SHA-256 digest of a byte string.
pub uninterp spec fn sha256_digest(data: Seq<u8>) -> Seq<u8>;

/// `sha2::Sha256` (`new`, `update`, `finalize`) over `data`: claims that the digest is a
/// function of the data, named [`sha256_digest`], and that it is 32 bytes long.
#[verifier::external_body]
pub(crate) fn sha256(data: &[u8]) -> (r: Vec<u8>)
    ensures
        r@ == sha256_digest(data@),
        r@.len() == 32,
{
    let mut hasher = sha2::Sha256::new();
    hasher.update(data);
    hasher.finalize().to_vec()
}

/// What `regex::Regex::new(pattern)` and then `is_match(text)` answer: `None` when the
/// pattern does not compile, otherwise whether the expression matches somewhere in `text`.
pub uninterp spec fn regex_search(pattern: Seq<char>, text: Seq<char>) -> Option<bool>;

/// `regex::Regex::new` on `pattern`, then `Regex::is_match` on `text`: claims only that the
/// answer is a function of the two strings, named [`regex_search`].
#[verifier::external_body]
pub(crate) fn regex_is_match(pattern: &str, text: &str) -> (r: Option<bool>)
    ensures
        r == regex_search(pattern@, text@),
{
    match regex::Regex::new(pattern) {
        Ok(re) => Some(re.is_match(text)),
        Err(_) => None,
    }
}

} // verus!
