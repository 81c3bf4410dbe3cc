//! `med learn`: turn an observation into a memory record.
use vstd::prelude::*;
use crate::bindings::{lowercase, sha256, sha256_digest, to_lowercase};
use crate::commands::think::{stem_all, stems_of};
use crate::memory::{EntryModel, MemoryEntry};
use crate::text::{all_ws, is_blank, split_on, split_str, trim_str, trimmed};

verus! {

/// The largest accepted content, in bytes of UTF-8.
pub const MAX_CONTENT_LENGTH: usize = 10000;

/// The largest accepted number of tag arguments.
pub const MAX_TAGS: usize = 50;

/// Why an observation is refused.
#[derive(Debug, PartialEq, Eq, Structural)]
pub enum LearnError {
    /// The content is empty or only white space.
    EmptyContent,
    /// The content is longer than [`MAX_CONTENT_LENGTH`] bytes.
    ContentTooLong,
    /// More than [`MAX_TAGS`] tag arguments were given; holds how many.
    TooManyTags(usize),
}

/// The length of a string in bytes of UTF-8.
pub open spec fn byte_len(s: Seq<char>) -> nat {
    vstd::utf8::encode_utf8(s).len()
}

// ---------------------------------------------------------------- identifiers

/// The lower-case hexadecimal digit for `n < 16`.
pub open spec fn hex_digit(n: int) -> char {
    if n < 10 {
        (48 + n) as char
    } else {
        (87 + n) as char
    }
}

/// Bytes written as lower-case hexadecimal, two digits per byte, most significant first.
pub open spec fn hex_lower(bytes: Seq<u8>) -> Seq<char>
    decreases bytes.len(),
{
    if bytes.len() == 0 {
        Seq::<char>::empty()
    } else {
        hex_lower(bytes.drop_last()) + seq![
            hex_digit(bytes.last() as int / 16),
            hex_digit(bytes.last() as int % 16),
        ]
    }
}

/// The identifier given to a memory learned without one: the first 16 hexadecimal
/// digits of the SHA-256 digest of its content.
pub open spec fn derived_id(content: Seq<char>) -> Seq<char> {
    hex_lower(sha256_digest(byte_seq(content))).take(16)
}

/// The UTF-8 bytes of a string.
pub open spec fn byte_seq(s: Seq<char>) -> Seq<u8> {
    vstd::utf8::encode_utf8(s)
}

/// Hexadecimal writes two digits per byte, so the first `2 * k` digits are those of
/// the first `k` bytes.
pub proof fn lemma_hex_lower_prefix(bytes: Seq<u8>, k: int)
    requires
        0 <= k <= bytes.len(),
    ensures
        hex_lower(bytes).len() == 2 * bytes.len(),
        hex_lower(bytes).take(2 * k) == hex_lower(bytes.take(k)),
    decreases bytes.len(),
{
    if bytes.len() > 0 {
        let t = bytes.drop_last();
        if k == bytes.len() {
            lemma_hex_lower_prefix(t, 0);
            assert(bytes.take(k) =~= bytes);
            assert(hex_lower(bytes).take(2 * k) =~= hex_lower(bytes));
        } else {
            lemma_hex_lower_prefix(t, k);
            assert(t.take(k) =~= bytes.take(k));
            assert(hex_lower(bytes).take(2 * k) =~= hex_lower(t).take(2 * k));
        }
    }
}

fn hex_digit_exec(n: u8) -> (c: char)
    requires
        n < 16,
    ensures
        c == hex_digit(n as int),
{
    if n < 10 {
        (48 + n) as char
    } else {
        (87 + n) as char
    }
}

/// The identifier of a memory learned without one (see [`derived_id`]).
pub fn derive_id(content: &str) -> (r: String)
    ensures
        r@ == derived_id(content@),
{
    let digest = sha256(content.as_bytes());
    let mut out: Vec<char> = Vec::new();
    proof {
        assert(digest@.take(0) =~= Seq::<u8>::empty());
    }
    for i in 0..8
        invariant
            digest@.len() == 32,
            out@ == hex_lower(digest@.take(i as int)),
    {
        let b = digest[i];
        let hi = hex_digit_exec(b / 16);
        let lo = hex_digit_exec(b % 16);
        let ghost before = out@;
        out.push(hi);
        out.push(lo);
        proof {
            let t = digest@.take(i + 1);
            assert(t.drop_last() =~= digest@.take(i as int));
            assert(t.last() == b);
            assert(out@ =~= before + seq![hi, lo]);
        }
    }
    proof {
        lemma_hex_lower_prefix(digest@, 8);
    }
    crate::bindings::string_from_chars(out.as_slice())
}

// ---------------------------------------------------------------- tags

/// The normalised, non-empty forms of some comma-separated pieces: trimmed, then
/// lower-cased.
pub open spec fn normalized_pieces(ps: Seq<Seq<char>>) -> Seq<Seq<char>>
    decreases ps.len(),
{
    if ps.len() == 0 {
        Seq::<Seq<char>>::empty()
    } else {
        let prev = normalized_pieces(ps.drop_last());
        let t = lowercase(trimmed(ps.last()));
        if t.len() > 0 {
            prev.push(t)
        } else {
            prev
        }
    }
}

/// The tags kept from the tag arguments: every argument is split at commas, and every
/// piece is trimmed and lower-cased; empty results are dropped.
pub open spec fn normalized_tags(tags: Seq<Seq<char>>) -> Seq<Seq<char>>
    decreases tags.len(),
{
    if tags.len() == 0 {
        Seq::<Seq<char>>::empty()
    } else {
        normalized_tags(tags.drop_last()) + normalized_pieces(split_on(tags.last(), ','))
    }
}

/// The normal form of a tag piece: trimmed, then lower-cased.
pub open spec fn piece_form(p: Seq<char>) -> Seq<char> {
    lowercase(trimmed(p))
}

proof fn lemma_normalized_pieces_origin(ps: Seq<Seq<char>>)
    ensures
        forall|k: int|
            0 <= k < normalized_pieces(ps).len() ==> (#[trigger] normalized_pieces(ps)[k]).len() > 0
                && exists|j: int| 0 <= j < ps.len() && normalized_pieces(ps)[k] == piece_form(#[trigger] ps[j]),
        forall|j: int|
            0 <= j < ps.len() && piece_form(#[trigger] ps[j]).len() > 0 ==> normalized_pieces(ps).contains(
                piece_form(ps[j]),
            ),
    decreases ps.len(),
{
    if ps.len() > 0 {
        let t = ps.drop_last();
        lemma_normalized_pieces_origin(t);
        let prev = normalized_pieces(t);
        let cur = normalized_pieces(ps);
        let f = piece_form(ps.last());
        assert forall|k: int| 0 <= k < cur.len() implies (#[trigger] cur[k]).len() > 0 && exists|j: int|
            0 <= j < ps.len() && cur[k] == piece_form(#[trigger] ps[j]) by {
            if k < prev.len() {
                assert(cur[k] == prev[k]);
                let j = choose|j: int| 0 <= j < t.len() && prev[k] == piece_form(#[trigger] t[j]);
                assert(ps[j] == t[j]);
            } else {
                assert(cur == prev.push(f));
                assert(ps[ps.len() - 1] == ps.last());
            }
        }
        assert forall|j: int| 0 <= j < ps.len() && piece_form(#[trigger] ps[j]).len() > 0 implies cur.contains(
            piece_form(ps[j]),
        ) by {
            if j < t.len() {
                assert(ps[j] == t[j]);
                assert(prev.contains(piece_form(t[j])));
                let q = choose|q: int| 0 <= q < prev.len() && prev[q] == piece_form(t[j]);
                if f.len() > 0 {
                    assert(cur == prev.push(f));
                    assert(cur[q] == prev[q]);
                }
            } else {
                assert(ps[j] == ps.last());
                assert(cur == prev.push(f));
                assert(cur[prev.len() as int] == f);
            }
        }
    }
}

/// The kept tags are exactly the non-empty normal forms of the comma-separated pieces of
/// the tag arguments: every kept tag is the trimmed, lower-cased form of one such piece
/// (a piece is split at commas only, so one holding a space stays whole), and every
/// piece whose form is not empty is kept.
pub proof fn lemma_normalized_tags_origin(tags: Seq<Seq<char>>)
    ensures
        forall|k: int|
            0 <= k < normalized_tags(tags).len() ==> (#[trigger] normalized_tags(tags)[k]).len() > 0
                && exists|i: int, j: int|
                0 <= i < tags.len() && 0 <= j < split_on(tags[i], ',').len()
                    && normalized_tags(tags)[k] == piece_form(#[trigger] split_on(tags[i], ',')[j]),
        forall|i: int, j: int|
            0 <= i < tags.len() && 0 <= j < split_on(tags[i], ',').len() && piece_form(
                #[trigger] split_on(tags[i], ',')[j],
            ).len() > 0 ==> normalized_tags(tags).contains(piece_form(split_on(tags[i], ',')[j])),
    decreases tags.len(),
{
    if tags.len() > 0 {
        let t = tags.drop_last();
        lemma_normalized_tags_origin(t);
        let last = split_on(tags.last(), ',');
        lemma_normalized_pieces_origin(last);
        let prev = normalized_tags(t);
        let own = normalized_pieces(last);
        let cur = normalized_tags(tags);
        assert(cur == prev + own);
        assert forall|k: int| 0 <= k < cur.len() implies (#[trigger] cur[k]).len() > 0 && exists|
            i: int,
            j: int,
        |
            0 <= i < tags.len() && 0 <= j < split_on(tags[i], ',').len() && cur[k] == piece_form(
                #[trigger] split_on(tags[i], ',')[j],
            ) by {
            if k < prev.len() {
                assert(cur[k] == prev[k]);
                let (i, j) = choose|i: int, j: int|
                    0 <= i < t.len() && 0 <= j < split_on(t[i], ',').len() && prev[k] == piece_form(
                        #[trigger] split_on(t[i], ',')[j],
                    );
                assert(tags[i] == t[i]);
            } else {
                assert(cur[k] == own[k - prev.len()]);
                let j = choose|j: int| 0 <= j < last.len() && own[k - prev.len()] == piece_form(#[trigger] last[j]);
                assert(tags[tags.len() - 1] == tags.last());
                assert(split_on(tags[tags.len() - 1], ',')[j] == last[j]);
            }
        }
        assert forall|i: int, j: int|
            0 <= i < tags.len() && 0 <= j < split_on(tags[i], ',').len() && piece_form(
                #[trigger] split_on(tags[i], ',')[j],
            ).len() > 0 implies cur.contains(piece_form(split_on(tags[i], ',')[j])) by {
            let x = piece_form(split_on(tags[i], ',')[j]);
            if i < t.len() {
                assert(tags[i] == t[i]);
                assert(split_on(t[i], ',')[j] == split_on(tags[i], ',')[j]);
                assert(prev.contains(x));
                let q = choose|q: int| 0 <= q < prev.len() && prev[q] == x;
                assert(cur[q] == prev[q]);
            } else {
                assert(tags[i] == tags.last());
                assert(last[j] == split_on(tags[i], ',')[j]);
                assert(own.contains(x));
                let q = choose|q: int| 0 <= q < own.len() && own[q] == x;
                assert(cur[prev.len() + q] == own[q]);
            }
        }
    }
}

/// Tag arguments are normalised one by one: the tags kept from two runs of arguments
/// are those kept from each, one after the other.
pub proof fn lemma_normalized_tags_concat(a: Seq<Seq<char>>, b: Seq<Seq<char>>)
    ensures
        normalized_tags(a + b) == normalized_tags(a) + normalized_tags(b),
    decreases b.len(),
{
    if b.len() == 0 {
        assert(a + b =~= a);
        assert(normalized_tags(a) + normalized_tags(b) =~= normalized_tags(a));
    } else {
        lemma_normalized_tags_concat(a, b.drop_last());
        assert((a + b).drop_last() =~= a + b.drop_last());
        assert((a + b).last() == b.last());
        let x = normalized_tags(a);
        let y = normalized_tags(b.drop_last());
        let z = normalized_pieces(split_on(b.last(), ','));
        assert((x + y) + z =~= x + (y + z));
    }
}

fn push_normalized_pieces(out: &mut Vec<String>, pieces: &Vec<String>)
    ensures
        final(out).deep_view() == old(out).deep_view() + normalized_pieces(pieces.deep_view()),
{
    let n = pieces.len();
    let ghost start = out.deep_view();
    proof {
        assert(pieces.deep_view().take(0) =~= Seq::<Seq<char>>::empty());
        assert(out.deep_view() =~= start + normalized_pieces(pieces.deep_view().take(0)));
    }
    for i in 0..n
        invariant
            n == pieces@.len(),
            out.deep_view() == start + normalized_pieces(pieces.deep_view().take(i as int)),
    {
        let trimmed_piece = trim_str(pieces[i].as_str());
        let t = to_lowercase(trimmed_piece.as_str());
        let ghost before = out.deep_view();
        proof {
            let d = pieces.deep_view();
            assert(d.take(i + 1).drop_last() =~= d.take(i as int));
            assert(d.take(i + 1).last() == pieces@[i as int]@);
        }
        if !t.as_str().is_empty() {
            out.push(t);
            proof {
                assert(out.deep_view() =~= before.push(t@));
            }
        }
    }
    proof {
        assert(pieces.deep_view().take(n as int) =~= pieces.deep_view());
    }
}

/// Splits, trims and lower-cases the tag arguments (see [`normalized_tags`]).
pub fn normalize_tags(tags: &Vec<String>) -> (r: Vec<String>)
    ensures
        r.deep_view() == normalized_tags(tags.deep_view()),
{
    let mut out: Vec<String> = Vec::new();
    let n = tags.len();
    proof {
        assert(tags.deep_view().take(0) =~= Seq::<Seq<char>>::empty());
        assert(out.deep_view() =~= Seq::<Seq<char>>::empty());
    }
    for i in 0..n
        invariant
            n == tags@.len(),
            out.deep_view() == normalized_tags(tags.deep_view().take(i as int)),
    {
        let pieces = split_str(tags[i].as_str(), ',');
        proof {
            let d = tags.deep_view();
            assert(d.take(i + 1).drop_last() =~= d.take(i as int));
            assert(d.take(i + 1).last() == tags@[i as int]@);
        }
        push_normalized_pieces(&mut out, &pieces);
    }
    proof {
        assert(tags.deep_view().take(n as int) =~= tags.deep_view());
    }
    out
}

// ---------------------------------------------------------------- the record

/// What learning `content` with the tag arguments `tags` at time `now` gives: a refusal,
/// or the record to append to the musings log.
pub open spec fn learned(
    content: Seq<char>,
    tags: Seq<Seq<char>>,
    custom_id: Option<Seq<char>>,
    source: Option<Seq<char>>,
    now: i64,
) -> Result<EntryModel, LearnError> {
    if all_ws(content) {
        Err(LearnError::EmptyContent)
    } else if byte_len(content) > MAX_CONTENT_LENGTH {
        Err(LearnError::ContentTooLong)
    } else if tags.len() > MAX_TAGS {
        Err(LearnError::TooManyTags(tags.len() as usize))
    } else {
        let kept = normalized_tags(tags);
        Ok(
            EntryModel {
                id: match custom_id {
                    Some(id) => id,
                    None => derived_id(content),
                },
                content,
                timestamp: now,
                tags: kept,
                associations: stems_of(kept),
                source,
                access_count: 0,
                last_access: now,
            },
        )
    }
}

/// The model of a learning outcome.
pub open spec fn outcome_model(r: Result<MemoryEntry, LearnError>) -> Result<
    EntryModel,
    LearnError,
> {
    match r {
        Ok(e) => Ok(e@),
        Err(err) => Err(err),
    }
}

/// Validates an observation and builds its memory record at time `now_ms`.
pub fn prepare_entry(
    content: &str,
    tags: &Vec<String>,
    custom_id: Option<String>,
    source: Option<String>,
    now_ms: i64,
) -> (r: Result<MemoryEntry, LearnError>)
    ensures
        outcome_model(r) == learned(
            content@,
            tags.deep_view(),
            custom_id.deep_view(),
            source.deep_view(),
            now_ms,
        ),
{
    if is_blank(content) {
        return Err(LearnError::EmptyContent);
    }
    if content.as_bytes().len() > MAX_CONTENT_LENGTH {
        return Err(LearnError::ContentTooLong);
    }
    proof {
        assert(tags.deep_view().len() == tags@.len());
    }
    if tags.len() > MAX_TAGS {
        return Err(LearnError::TooManyTags(tags.len()));
    }
    let ghost custom_model = custom_id.deep_view();
    let id = match custom_id {
        Some(id) => id,
        None => derive_id(content),
    };
    proof {
        assert(id@ == match custom_model {
            Some(i) => i,
            None => derived_id(content@),
        });
    }
    let kept = normalize_tags(tags);
    let stems = stem_all(&kept);
    Ok(
        MemoryEntry {
            id,
            content: content.to_owned(),
            timestamp: now_ms,
            tags: kept,
            associations: stems,
            source,
            access_count: 0,
            last_access: now_ms,
        },
    )
}

} // verus!
