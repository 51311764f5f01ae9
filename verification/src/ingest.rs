//! Ingestion: hashing content, reading tags out of store paths, and
//! upserting points with their joins.
//!
//! A *store directory* is a tree whose directory components are tag
//! expressions of the form `name`, `name=value` or `name=value=sort`, and
//! whose files (or `@dir` markers) are points.

use vstd::prelude::*;

use blake2::Digest;

use crate::index::{
    find_point_by_id, insert_point_row, tag_point, IndexError, TagIndex,
};
use crate::models::{Point, PointV};
use crate::text::{
    chars_of, first_idx_where, lemma_first_idx_where, lemma_first_idx_where_unique, parse_i64,
    spec_parse_int, split_chars, split_on, string_of, subvec, trim_space_chars, trim_spaces,
};

verus! {

/// The optional value and sort value of a tag to attach.
pub type TagContent = Option<(String, Option<i64>)>;

/// One tag to attach: a name with its content.
pub type TagEntry = (String, TagContent);

/// The tags to attach to one point.
pub type TagEntries = Vec<TagEntry>;

/// Mathematical value of a [`TagEntry`].
pub open spec fn entry_v(e: (String, Option<(String, Option<i64>)>)) -> (
    Seq<char>,
    Option<(Seq<char>, Option<int>)>,
) {
    (e.0@, crate::index::payload_v(e.1))
}

// ---------------------------------------------------------------------------
// Content hashing
// ---------------------------------------------------------------------------

/// What the BLAKE2b-512 digest of a byte sequence is; a function of the
/// bytes alone.
pub uninterp spec fn blake2b512_of(data: Seq<u8>) -> Seq<u8>;

/// Relies on blake2's `Blake2b512` through the `Digest` trait: the digest
/// depends on the input bytes alone, and is 64 bytes long.
#[verifier::external_body]
fn blake2b512(data: &Vec<u8>) -> (r: Vec<u8>)
    ensures
        r@ == blake2b512_of(data@),
        r@.len() == 64,
{
    blake2::Blake2b512::digest(data.as_slice()).to_vec()
}

/// A nibble as a lowercase hexadecimal character.
pub open spec fn hex_digit(d: int) -> char {
    if d == 0 {
        '0'
    } else if d == 1 {
        '1'
    } else if d == 2 {
        '2'
    } else if d == 3 {
        '3'
    } else if d == 4 {
        '4'
    } else if d == 5 {
        '5'
    } else if d == 6 {
        '6'
    } else if d == 7 {
        '7'
    } else if d == 8 {
        '8'
    } else if d == 9 {
        '9'
    } else if d == 10 {
        'a'
    } else if d == 11 {
        'b'
    } else if d == 12 {
        'c'
    } else if d == 13 {
        'd'
    } else if d == 14 {
        'e'
    } else {
        'f'
    }
}

/// Lowercase hexadecimal of a byte sequence, two digits per byte, high
/// nibble first.
pub open spec fn hex_of(data: Seq<u8>) -> Seq<char>
    decreases data.len(),
{
    if data.len() == 0 {
        Seq::empty()
    } else {
        seq![hex_digit(data[0] as int / 16), hex_digit(data[0] as int % 16)] + hex_of(data.drop_first())
    }
}

/// Hexadecimal doubles the length.
pub proof fn lemma_hex_of_len(data: Seq<u8>)
    ensures
        hex_of(data).len() == 2 * data.len(),
    decreases data.len(),
{
    if data.len() > 0 {
        lemma_hex_of_len(data.drop_first());
    }
}

/// A nibble as a lowercase hexadecimal character.
fn hex_digit_char(d: u8) -> (c: char)
    requires
        d < 16,
    ensures
        c == hex_digit(d as int),
{
    match d {
        0 => '0',
        1 => '1',
        2 => '2',
        3 => '3',
        4 => '4',
        5 => '5',
        6 => '6',
        7 => '7',
        8 => '8',
        9 => '9',
        10 => 'a',
        11 => 'b',
        12 => 'c',
        13 => 'd',
        14 => 'e',
        _ => 'f',
    }
}

/// Encode bytes as lowercase hexadecimal, deciding [`hex_of`]; what
/// `hex::encode` computes, written out here since two digits per byte is
/// the whole of it.
#[verifier::loop_isolation(false)]
fn hex_encode(data: &Vec<u8>) -> (r: String)
    ensures
        r@ == hex_of(data@),
{
    let n = data.len();
    let mut cs: Vec<char> = Vec::new();
    proof {
        assert(data@.skip(0) =~= data@);
        assert(cs@ + hex_of(data@.skip(0)) =~= hex_of(data@));
    }
    for i in 0..n
        invariant
            n == data@.len(),
            hex_of(data@) == cs@ + hex_of(data@.skip(i as int)),
        decreases n - i,
    {
        let b = data[i];
        let ghost rest = data@.skip(i as int);
        proof {
            assert(rest[0] == data@[i as int]);
            assert(rest.drop_first() =~= data@.skip(i + 1));
        }
        cs.push(hex_digit_char(b / 16));
        cs.push(hex_digit_char(b % 16));
        proof {
            assert(hex_of(rest) == seq![
                hex_digit(b as int / 16),
                hex_digit(b as int % 16),
            ] + hex_of(data@.skip(i + 1)));
            assert(hex_of(data@) =~= cs@ + hex_of(data@.skip(i + 1)));
        }
    }
    proof {
        assert(data@.skip(n as int).len() == 0);
        assert(hex_of(data@) =~= cs@);
    }
    string_of(&cs)
}

/// The content hash of a point: the lowercase hexadecimal of the
/// BLAKE2b-512 digest of its bytes.
pub open spec fn spec_content_hash(data: Seq<u8>) -> Seq<char> {
    hex_of(blake2b512_of(data))
}

/// Hash content, deciding [`spec_content_hash`]; 128 characters always.
pub fn content_hash(data: &Vec<u8>) -> (r: String)
    ensures
        r@ == spec_content_hash(data@),
        r@.len() == 128,
{
    let digest = blake2b512(data);
    let r = hex_encode(&digest);
    proof {
        lemma_hex_of_len(digest@);
    }
    r
}

// ---------------------------------------------------------------------------
// Store-path tags
// ---------------------------------------------------------------------------

/// Failures of store ingestion.
#[derive(Clone, Copy, PartialEq, Eq, Structural, Debug)]
pub enum IngestError {
    /// A store path component cannot be read as a tag.
    InvalidPath,
}

/// What one store-path component means: its `=`-separated pieces, each
/// trimmed of white space, read as a name, an optional value, and an
/// optional numeric sort value.  More pieces, or an unreadable sort value,
/// are invalid.
pub open spec fn spec_tag_of_part(s: Seq<char>) -> Option<
    (Seq<char>, Option<(Seq<char>, Option<int>)>),
> {
    let segs = split_on(s, seq!['=']).map_values(|p: Seq<char>| trim_spaces(p));
    if segs.len() == 1 {
        Some((segs[0], None))
    } else if segs.len() == 2 {
        Some((segs[0], Some((segs[1], None))))
    } else if segs.len() == 3 {
        match spec_parse_int(segs[2], i64::MIN as int, i64::MAX as int) {
            Some(sv) => Some((segs[0], Some((segs[1], Some(sv))))),
            None => None,
        }
    } else {
        None
    }
}

/// Read one store-path component, deciding [`spec_tag_of_part`].
#[verifier::loop_isolation(false)]
pub fn tag_of_part(part: &String) -> (r: Result<TagEntry, IngestError>)
    ensures
        match r {
            Ok(e) => spec_tag_of_part(part@) == Some(entry_v(e)),
            Err(_) => spec_tag_of_part(part@) is None,
        },
{
    let cs = chars_of(part.as_str());
    let mut sep: Vec<char> = Vec::new();
    sep.push('=');
    proof {
        assert(sep@ =~= seq!['=']);
    }
    let pieces = split_chars(&cs, &sep);
    let n = pieces.len();
    proof {
        assert(pieces.deep_view().len() == n);
        assert(split_on(part@, seq!['=']).map_values(|p: Seq<char>| trim_spaces(p)).len() == n);
    }
    if n == 1 {
        let name = trim_space_chars(&pieces[0]);
        proof {
            assert(pieces@[0]@ == pieces.deep_view()[0]);
        }
        return Ok((string_of(&name), None));
    }
    if n == 2 {
        let name = trim_space_chars(&pieces[0]);
        let value = trim_space_chars(&pieces[1]);
        proof {
            assert(pieces@[0]@ == pieces.deep_view()[0]);
            assert(pieces@[1]@ == pieces.deep_view()[1]);
        }
        return Ok((string_of(&name), Some((string_of(&value), None))));
    }
    if n == 3 {
        let name = trim_space_chars(&pieces[0]);
        let value = trim_space_chars(&pieces[1]);
        let sortv = trim_space_chars(&pieces[2]);
        proof {
            assert(pieces@[0]@ == pieces.deep_view()[0]);
            assert(pieces@[1]@ == pieces.deep_view()[1]);
            assert(pieces@[2]@ == pieces.deep_view()[2]);
        }
        match parse_i64(&sortv) {
            Some(sv) => {
                return Ok((string_of(&name), Some((string_of(&value), Some(sv)))));
            },
            None => {
                return Err(IngestError::InvalidPath);
            },
        }
    }
    Err(IngestError::InvalidPath)
}

/// Mathematical value of a tag-entry list.
pub open spec fn entries_v(es: Seq<(String, Option<(String, Option<i64>)>)>) -> Seq<
    (Seq<char>, Option<(Seq<char>, Option<int>)>),
> {
    es.map_values(|e: (String, Option<(String, Option<i64>)>)| entry_v(e))
}

/// The tags read from a list of store components: one entry per component,
/// in order, provided every component reads.
pub open spec fn spec_tags_of_parts(parts: Seq<Seq<char>>) -> Option<
    Seq<(Seq<char>, Option<(Seq<char>, Option<int>)>)>,
>
    decreases parts.len(),
{
    if parts.len() == 0 {
        Some(Seq::empty())
    } else {
        match spec_tags_of_parts(parts.drop_last()) {
            None => None,
            Some(ts) => match spec_tag_of_part(parts.last()) {
                None => None,
                Some(e) => Some(ts.push(e)),
            },
        }
    }
}

/// [`spec_tags_of_parts`] reads every component, or fails on one.
pub proof fn lemma_spec_tags_of_parts(parts: Seq<Seq<char>>)
    ensures
        match spec_tags_of_parts(parts) {
            Some(ts) => ts.len() == parts.len() && forall|k: int|
                0 <= k < parts.len() ==> spec_tag_of_part(#[trigger] parts[k]) == Some(ts[k]),
            None => exists|k: int|
                0 <= k < parts.len() && spec_tag_of_part(#[trigger] parts[k]) is None,
        },
    decreases parts.len(),
{
    if parts.len() > 0 {
        lemma_spec_tags_of_parts(parts.drop_last());
        assert(forall|k: int|
            0 <= k < parts.len() - 1 ==> #[trigger] parts[k] == parts.drop_last()[k]);
        match spec_tags_of_parts(parts.drop_last()) {
            Some(ts) => {
                match spec_tag_of_part(parts.last()) {
                    Some(e) => {
                        assert forall|k: int|
                            0 <= k < parts.len() implies spec_tag_of_part(#[trigger] parts[k])
                            == Some(ts.push(e)[k]) by {
                            if k < parts.len() - 1 {
                                assert(spec_tag_of_part(parts.drop_last()[k]) == Some(ts[k]));
                            }
                        }
                    },
                    None => {
                        assert(spec_tag_of_part(parts[parts.len() - 1]) is None);
                    },
                }
            },
            None => {
                let k = choose|k: int|
                    0 <= k < parts.len() - 1 && spec_tag_of_part(
                        #[trigger] parts.drop_last()[k],
                    ) is None;
                assert(spec_tag_of_part(parts[k]) is None);
            },
        }
    }
}

/// The name and tags a store path denotes: its last component names the
/// point, the components before it must all read as tags.
pub open spec fn spec_name_and_tags(rel: Seq<Seq<char>>) -> Option<
    (Seq<char>, Seq<(Seq<char>, Option<(Seq<char>, Option<int>)>)>),
> {
    if rel.len() == 0 {
        None
    } else {
        match spec_tags_of_parts(rel.drop_last()) {
            None => None,
            Some(ts) => Some((rel.last(), ts)),
        }
    }
}

/// Read every component of a store path as a tag; any unreadable one
/// invalidates the whole path.
#[verifier::loop_isolation(false)]
pub fn path_parts_to_tags(parts: &Vec<String>) -> (r: Result<TagEntries, IngestError>)
    ensures
        match r {
            Ok(es) => es@.len() == parts@.len() && forall|k: int|
                0 <= k < es@.len() ==> spec_tag_of_part(parts.deep_view()[k]) == Some(
                    entry_v(#[trigger] es@[k]),
                ),
            Err(_) => exists|k: int|
                0 <= k < parts@.len() && spec_tag_of_part(#[trigger] parts.deep_view()[k])
                    is None,
        },
{
    let n = parts.len();
    let mut es: TagEntries = Vec::new();
    for i in 0..n
        invariant
            es@.len() == i,
            forall|k: int|
                0 <= k < i ==> spec_tag_of_part(parts.deep_view()[k]) == Some(
                    entry_v(#[trigger] es@[k]),
                ),
    {
        proof {
            assert(parts.deep_view()[i as int] == parts@[i as int]@);
        }
        match tag_of_part(&parts[i]) {
            Ok(e) => {
                es.push(e);
            },
            Err(e) => {
                return Err(e);
            },
        }
    }
    Ok(es)
}

/// The name and tags of a store entry, deciding [`spec_name_and_tags`]:
/// the last component names the point, the components before it carry its
/// tags.
#[verifier::loop_isolation(false)]
pub fn store_path_to_name_and_tags(rel: &Vec<String>) -> (r: Result<
    (String, TagEntries),
    IngestError,
>)
    ensures
        match r {
            Ok((name, es)) => spec_name_and_tags(rel.deep_view()) == Some(
                (name@, entries_v(es@)),
            ),
            Err(e) => e == IngestError::InvalidPath && spec_name_and_tags(rel.deep_view())
                is None,
        },
{
    let n = rel.len();
    if n == 0 {
        return Err(IngestError::InvalidPath);
    }
    let parents = crate::paths::sub_parts(rel, 0, n - 1);
    proof {
        assert(parents.deep_view() =~= rel.deep_view().drop_last());
        assert(forall|k: int|
            0 <= k < n - 1 ==> #[trigger] parents.deep_view()[k] == rel.deep_view()[k]);
        lemma_spec_tags_of_parts(rel.deep_view().drop_last());
    }
    match path_parts_to_tags(&parents) {
        Ok(es) => {
            proof {
                assert(rel.deep_view().last() == rel@[n - 1]@);
                match spec_tags_of_parts(rel.deep_view().drop_last()) {
                    Some(ts) => {
                        assert(entries_v(es@) =~= ts) by {
                            assert(forall|k: int|
                                0 <= k < es@.len() ==> entries_v(es@)[k] == entry_v(
                                    #[trigger] es@[k],
                                ));
                        }
                    },
                    None => {
                        let k = choose|k: int|
                            0 <= k < rel.deep_view().drop_last().len() && spec_tag_of_part(
                                #[trigger] rel.deep_view().drop_last()[k],
                            ) is None;
                        assert(spec_tag_of_part(parents.deep_view()[k]) == Some(
                            entry_v(es@[k]),
                        ));
                        assert(false);
                    },
                }
            }
            Ok((rel[n - 1].clone(), es))
        },
        Err(e) => {
            proof {
                let k = choose|k: int|
                    0 <= k < parents@.len() && spec_tag_of_part(
                        #[trigger] parents.deep_view()[k],
                    ) is None;
                match spec_tags_of_parts(rel.deep_view().drop_last()) {
                    Some(ts) => {
                        assert(spec_tag_of_part(rel.deep_view().drop_last()[k]) == Some(ts[k]));
                        assert(false);
                    },
                    None => {},
                }
            }
            Err(e)
        },
    }
}

/// What to do with one store entry.
pub enum StoreAction {
    /// Leave it alone: a symlink, the `@flat-info` meta file, a descendant
    /// of a `@dir` marker, or a directory that is not itself a point.
    Skip,
    /// Register a point under this name with these tags.
    Ingest(String, TagEntries),
}

/// Mathematical value of a store plan.
pub ghost enum StorePlanV {
    Skip,
    Ingest(Seq<char>, Seq<(Seq<char>, Option<(Seq<char>, Option<int>)>)>),
    Invalid,
}

/// The store-directory convention, per entry.  A symlink is skipped; so is
/// the root `@flat-info` meta file and anything below a `@dir` marker.  A
/// file becomes a point named and tagged by its path; a directory does so
/// only through a `@dir` marker naming its parent; a path whose tag
/// components do not read is invalid.
pub open spec fn spec_store_plan(rel: Seq<Seq<char>>, is_file: bool, is_symlink: bool) -> StorePlanV {
    if is_symlink {
        StorePlanV::Skip
    } else if rel.len() == 1 && rel[0] == crate::paths::flat_info_tok() {
        StorePlanV::Skip
    } else if exists|j: int| 0 <= j < rel.len() - 1 && rel[j] == crate::paths::dir_tok() {
        StorePlanV::Skip
    } else if !is_file {
        if rel.len() == 0 || rel.last() != crate::paths::dir_tok() {
            StorePlanV::Skip
        } else {
            match spec_name_and_tags(rel.drop_last()) {
                Some(nt) => StorePlanV::Ingest(nt.0, nt.1),
                None => StorePlanV::Invalid,
            }
        }
    } else {
        match spec_name_and_tags(rel) {
            Some(nt) => StorePlanV::Ingest(nt.0, nt.1),
            None => StorePlanV::Invalid,
        }
    }
}

/// Decide what to do with one store entry, deciding [`spec_store_plan`]
/// from its path relative to the store root and what kind of node it is.
#[verifier::loop_isolation(false)]
pub fn store_entry_plan(rel: &Vec<String>, is_file: bool, is_symlink: bool) -> (r: Result<
    StoreAction,
    IngestError,
>)
    ensures
        match spec_store_plan(rel.deep_view(), is_file, is_symlink) {
            StorePlanV::Skip => r matches Ok(a) && a is Skip,
            StorePlanV::Ingest(n, ts) => r matches Ok(a) && (a matches StoreAction::Ingest(
                name,
                tags,
            ) && name@ == n && entries_v(tags@) == ts),
            StorePlanV::Invalid => r matches Err(e) && e == IngestError::InvalidPath,
        },
{
    let ghost relv = rel.deep_view();
    if is_symlink {
        return Ok(StoreAction::Skip);
    }
    let n = rel.len();
    let itok = crate::paths::flat_info_tok_str();
    proof {
        if n >= 1 {
            assert(relv[0] == rel@[0]@);
        }
    }
    if n == 1 && rel[0] == itok {
        proof {
            assert(spec_store_plan(relv, is_file, is_symlink) is Skip);
        }
        return Ok(StoreAction::Skip);
    }
    let dtok = crate::paths::dir_tok_str();
    // a component before the last that reads `@dir` marks an ancestor
    if n > 0 {
        for i in 0..n - 1
            invariant
                n == rel@.len(),
                n > 0,
                forall|j: int| 0 <= j < i ==> #[trigger] relv[j] != crate::paths::dir_tok(),
        {
            proof {
                assert(relv[i as int] == rel@[i as int]@);
            }
            if rel[i] == dtok {
                proof {
                    assert(relv[i as int] == crate::paths::dir_tok());
                    assert(spec_store_plan(relv, is_file, is_symlink) is Skip);
                }
                return Ok(StoreAction::Skip);
            }
        }
    }
    proof {
        assert(!(exists|j: int| 0 <= j < relv.len() - 1 && relv[j] == crate::paths::dir_tok()))
            by {
            if exists|j: int| 0 <= j < relv.len() - 1 && relv[j] == crate::paths::dir_tok() {
                let j = choose|j: int|
                    0 <= j < relv.len() - 1 && relv[j] == crate::paths::dir_tok();
                assert(relv[j] != crate::paths::dir_tok());
            }
        }
    }
    if !is_file {
        if n == 0 {
            return Ok(StoreAction::Skip);
        }
        proof {
            assert(relv.last() == rel@[n - 1]@);
        }
        if !(rel[n - 1] == dtok) {
            proof {
                assert(relv.last() != crate::paths::dir_tok());
            }
            return Ok(StoreAction::Skip);
        }
        proof {
            assert(relv.last() == crate::paths::dir_tok());
        }
        let parent = crate::paths::sub_parts(rel, 0, n - 1);
        proof {
            assert(parent.deep_view() =~= relv.drop_last());
        }
        match store_path_to_name_and_tags(&parent) {
            Ok((name, tags)) => Ok(StoreAction::Ingest(name, tags)),
            Err(e) => Err(e),
        }
    } else {
        match store_path_to_name_and_tags(rel) {
            Ok((name, tags)) => Ok(StoreAction::Ingest(name, tags)),
            Err(e) => Err(e),
        }
    }
}

// ---------------------------------------------------------------------------
// Upserting points
// ---------------------------------------------------------------------------

/// The predicate selecting a point by backing path.
pub open spec fn by_path_pred(pathv: Seq<char>) -> spec_fn(PointV) -> bool {
    |p: PointV| p.path == Some(pathv)
}

/// The predicate selecting a point by content hash.
pub open spec fn by_hash_pred(h: Seq<char>) -> spec_fn(PointV) -> bool {
    |p: PointV| p.hash == h
}

/// The first point with this backing path, if any.
#[verifier::loop_isolation(false)]
fn find_by_path(index: &TagIndex, path_str: &String) -> (r: Option<i32>)
    ensures
        match r {
            Some(id) => first_idx_where(index.points_v(), by_path_pred(path_str@)) matches Some(
                i,
            ) && index.points_v()[i].id == id as int,
            None => first_idx_where(index.points_v(), by_path_pred(path_str@)) is None,
        },
{
    proof {
        index.lemma_views();
    }
    let ghost pred = by_path_pred(path_str@);
    let n = index.points.len();
    for i in 0..n
        invariant
            forall|j: int| 0 <= j < i ==> !pred(#[trigger] index.points_v()[j]),
    {
        proof {
            assert(index.points_v()[i as int] == index.points@[i as int]@);
        }
        let hit = match &index.points[i].path {
            Some(pp) => *pp == *path_str,
            None => false,
        };
        proof {
            assert(hit == pred(index.points_v()[i as int]));
        }
        if hit {
            proof {
                lemma_first_idx_where_unique(index.points_v(), pred, i as int);
            }
            return Some(index.points[i].id);
        }
    }
    proof {
        lemma_first_idx_where(index.points_v(), pred);
        if let Some(k) = first_idx_where(index.points_v(), pred) {
            assert(pred(index.points_v()[k]));
        }
    }
    None
}

/// The first point with this content hash, if any.
#[verifier::loop_isolation(false)]
fn find_by_hash(index: &TagIndex, h: &String) -> (r: Option<i32>)
    ensures
        match r {
            Some(id) => first_idx_where(index.points_v(), by_hash_pred(h@)) matches Some(i)
                && index.points_v()[i].id == id as int,
            None => first_idx_where(index.points_v(), by_hash_pred(h@)) is None,
        },
{
    proof {
        index.lemma_views();
    }
    let ghost pred = by_hash_pred(h@);
    let n = index.points.len();
    for i in 0..n
        invariant
            forall|j: int| 0 <= j < i ==> !pred(#[trigger] index.points_v()[j]),
    {
        proof {
            assert(index.points_v()[i as int] == index.points@[i as int]@);
        }
        let hit = index.points[i].hash == *h;
        proof {
            assert(hit == pred(index.points_v()[i as int]));
        }
        if hit {
            proof {
                lemma_first_idx_where_unique(index.points_v(), pred, i as int);
            }
            return Some(index.points[i].id);
        }
    }
    proof {
        lemma_first_idx_where(index.points_v(), pred);
        if let Some(k) = first_idx_where(index.points_v(), pred) {
            assert(pred(index.points_v()[k]));
        }
    }
    None
}


/// A tag row carries what an entry asks for: the name, and the value when
/// one is given.
pub open spec fn tag_entry_matches(
    e: (Seq<char>, Option<(Seq<char>, Option<int>)>),
    t: crate::models::TagV,
) -> bool {
    t.name == e.0 && match e.1 {
        Some(p) => t.value == Some(p.0),
        None => true,
    }
}

/// Some tag row matches the entry and is joined to the point.
pub open spec fn spec_entry_attached(
    index: TagIndex,
    pid: int,
    e: (String, Option<(String, Option<i64>)>),
) -> bool {
    exists|ti: int|
        0 <= ti < index.tags_v().len() && tag_entry_matches(
            entry_v(e),
            #[trigger] index.tags_v()[ti],
        ) && index.join_pair_exists(pid, index.tags_v()[ti].id)
}

/// Every entry has a matching tag row joined to the point.
pub open spec fn spec_entries_attached(
    index: TagIndex,
    pid: int,
    entries: Seq<(String, Option<(String, Option<i64>)>)>,
) -> bool {
    forall|k: int|
        0 <= k < entries.len() ==> spec_entry_attached(index, pid, #[trigger] entries[k])
}

/// A tag row carrying exactly the columns one entry of the list would
/// create: the entry's name, value and sort value.
pub open spec fn spec_created_from(
    t: crate::models::TagV,
    entries: Seq<(String, Option<(String, Option<i64>)>)>,
) -> bool {
    exists|k: int|
        0 <= k < entries.len() && t.name == entry_v(#[trigger] entries[k]).0 && t.value
            == crate::index::spec_new_tag_value(entry_v(entries[k]).1) && t.sort_value
            == crate::index::spec_new_tag_sort(entry_v(entries[k]).1)
}

/// Attached entries stay attached when the tag and join tables only grow.
pub proof fn lemma_attached_preserved(
    o: TagIndex,
    n: TagIndex,
    pid: int,
    entries: Seq<(String, Option<(String, Option<i64>)>)>,
)
    requires
        spec_entries_attached(o, pid, entries),
        o.tags_v().is_prefix_of(n.tags_v()),
        o.joins_v().is_prefix_of(n.joins_v()),
    ensures
        spec_entries_attached(n, pid, entries),
{
    assert forall|k: int|
        0 <= k < entries.len() implies spec_entry_attached(n, pid, #[trigger] entries[k]) by {
        assert(spec_entry_attached(o, pid, entries[k]));
        let ti = choose|ti: int|
            0 <= ti < o.tags_v().len() && tag_entry_matches(
                entry_v(entries[k]),
                #[trigger] o.tags_v()[ti],
            ) && o.join_pair_exists(pid, o.tags_v()[ti].id);
        assert(n.tags_v()[ti] == o.tags_v()[ti]) by {
            assert(n.tags_v().take(o.tags_v().len() as int) =~= o.tags_v());
        }
        let jw = choose|jw: int|
            0 <= jw < o.joins_v().len() && (#[trigger] o.joins_v()[jw]).point_id == pid
                && o.joins_v()[jw].tag_id == o.tags_v()[ti].id;
        assert(n.joins_v()[jw] == o.joins_v()[jw]) by {
            assert(n.joins_v().take(o.joins_v().len() as int) =~= o.joins_v());
        }
        assert(n.join_pair_exists(pid, n.tags_v()[ti].id));
        assert(tag_entry_matches(entry_v(entries[k]), n.tags_v()[ti]));
    }
}

/// Attach every entry to a point: each entry reuses or creates a tag and
/// joins it to the point.
#[verifier::loop_isolation(false)]
#[verifier::rlimit(100)]
#[verifier::spinoff_prover]
pub fn apply_tags(index: &mut TagIndex, pid: i32, entries: &TagEntries)
    requires
        old(index).wf(),
        old(index).has_point_id(pid as int),
        old(index).tags@.len() + entries@.len() < 0x7fff_ffff,
        old(index).joins@.len() + entries@.len() < 0x7fff_ffff,
    ensures
        final(index).wf(),
        final(index).points_v() == old(index).points_v(),
        old(index).tags_v().is_prefix_of(final(index).tags_v()),
        old(index).joins_v().is_prefix_of(final(index).joins_v()),
        final(index).tags_v().len() <= old(index).tags_v().len() + entries@.len(),
        final(index).joins_v().len() <= old(index).joins_v().len() + entries@.len(),
        spec_entries_attached(*final(index), pid as int, entries@),
        forall|ti: int|
            old(index).tags_v().len() <= ti < final(index).tags_v().len() ==> spec_created_from(
                #[trigger] final(index).tags_v()[ti],
                entries@,
            ),
{
    proof {
        index.lemma_views();
        assert(old(index).tags_v().take(old(index).tags_v().len() as int) =~= old(index).tags_v());
    }
    let n = entries.len();
    for k in 0..n
        invariant
            index.wf(),
            index.points_v() == old(index).points_v(),
            index.has_point_id(pid as int),
            old(index).tags_v().is_prefix_of(index.tags_v()),
            old(index).joins_v().is_prefix_of(index.joins_v()),
            index.tags_v().len() <= old(index).tags_v().len() + k,
            index.joins_v().len() <= old(index).joins_v().len() + k,
            forall|k2: int|
                0 <= k2 < k ==> spec_entry_attached(*index, pid as int, #[trigger] entries@[k2]),
            forall|ti: int|
                old(index).tags_v().len() <= ti < index.tags_v().len() ==> spec_created_from(
                    #[trigger] index.tags_v()[ti],
                    entries@,
                ),
    {
        let e = &entries[k];
        let name = e.0.clone();
        let content: TagContent = match &e.1 {
            Some((v, sv)) => Some((v.clone(), *sv)),
            None => None,
        };
        let ghost pre = *index;
        let ghost payload = crate::index::payload_v(content);
        proof {
            assert(payload == entry_v(entries@[k as int]).1);
            assert(name@ == entry_v(entries@[k as int]).0);
        }
        let r = tag_point(index, pid, name, content);
        match r {
            Ok(tid) => {
                proof {
                    // the attached tag row satisfies the entry
                    assert(exists|ti: int|
                        0 <= ti < index.tags_v().len() && tag_entry_matches(
                            entry_v(entries@[k as int]),
                            #[trigger] index.tags_v()[ti],
                        ) && index.tags_v()[ti].id == tid as int) by {
                        match crate::text::first_idx_where(
                            pre.tags_v(),
                            crate::index::tag_sel_pred(
                                entry_v(entries@[k as int]).0,
                                payload,
                            ),
                        ) {
                            Some(si) => {
                                crate::text::lemma_first_idx_where(
                                    pre.tags_v(),
                                    crate::index::tag_sel_pred(
                                        entry_v(entries@[k as int]).0,
                                        payload,
                                    ),
                                );
                                assert(index.tags_v()[si] == pre.tags_v()[si]);
                                assert(tag_entry_matches(
                                    entry_v(entries@[k as int]),
                                    index.tags_v()[si],
                                ));
                            },
                            None => {
                                let last = index.tags_v().len() - 1;
                                assert(index.tags_v()[last].id == tid as int);
                                assert(tag_entry_matches(
                                    entry_v(entries@[k as int]),
                                    index.tags_v()[last],
                                ));
                            },
                        }
                    }
                    // prefix bookkeeping
                    assert(pre.tags_v().is_prefix_of(index.tags_v())) by {
                        assert(index.tags_v().take(pre.tags_v().len() as int)
                            =~= pre.tags_v());
                    }
                    assert(old(index).tags_v().is_prefix_of(index.tags_v())) by {
                        assert(index.tags_v().take(old(index).tags_v().len() as int)
                            =~= old(index).tags_v());
                    }
                    assert(pre.joins_v().is_prefix_of(index.joins_v())) by {
                        if !pre.join_pair_exists(pid as int, tid as int) {
                            assert(index.joins_v().take(pre.joins_v().len() as int)
                                =~= pre.joins_v());
                        } else {
                            assert(index.joins_v().take(pre.joins_v().len() as int)
                                =~= pre.joins_v());
                        }
                    }
                    assert(old(index).joins_v().is_prefix_of(index.joins_v())) by {
                        assert(index.joins_v().take(old(index).joins_v().len() as int)
                            =~= old(index).joins_v());
                    }
                    // rows appended so far carry some entry's exact columns
                    assert forall|ti: int|
                        old(index).tags_v().len() <= ti < index.tags_v().len() implies spec_created_from(
                        #[trigger] index.tags_v()[ti],
                        entries@,
                    ) by {
                        if ti < pre.tags_v().len() {
                            assert(index.tags_v()[ti] == pre.tags_v()[ti]) by {
                                assert(index.tags_v().take(pre.tags_v().len() as int)
                                    =~= pre.tags_v());
                            }
                            assert(spec_created_from(pre.tags_v()[ti], entries@));
                        } else {
                            match crate::text::first_idx_where(
                                pre.tags_v(),
                                crate::index::tag_sel_pred(
                                    entry_v(entries@[k as int]).0,
                                    payload,
                                ),
                            ) {
                                Some(_) => {
                                    assert(index.tags_v().len() == pre.tags_v().len());
                                    assert(false);
                                },
                                None => {
                                    assert(ti == index.tags_v().len() - 1);
                                    assert(index.tags_v()[ti].name == entry_v(
                                        entries@[k as int],
                                    ).0);
                                    assert(index.tags_v()[ti].value
                                        == crate::index::spec_new_tag_value(
                                        entry_v(entries@[k as int]).1,
                                    ));
                                    assert(index.tags_v()[ti].sort_value
                                        == crate::index::spec_new_tag_sort(
                                        entry_v(entries@[k as int]).1,
                                    ));
                                },
                            }
                        }
                    }
                    // earlier entries stay attached
                    assert forall|k2: int|
                        0 <= k2 < k + 1 implies spec_entry_attached(
                        *index,
                        pid as int,
                        #[trigger] entries@[k2],
                    ) by {
                        if k2 < k {
                            assert(spec_entry_attached(pre, pid as int, entries@[k2]));
                            let ti = choose|ti: int|
                                0 <= ti < pre.tags_v().len() && tag_entry_matches(
                                    entry_v(entries@[k2]),
                                    #[trigger] pre.tags_v()[ti],
                                ) && pre.join_pair_exists(pid as int, pre.tags_v()[ti].id);
                            assert(index.tags_v()[ti] == pre.tags_v()[ti]) by {
                                assert(index.tags_v().take(pre.tags_v().len() as int)
                                    =~= pre.tags_v());
                            }
                            let w = choose|w: int|
                                0 <= w < pre.joins_v().len() && (
                                #[trigger] pre.joins_v()[w]).point_id == pid as int
                                    && pre.joins_v()[w].tag_id == pre.tags_v()[ti].id;
                            assert(index.joins_v()[w] == pre.joins_v()[w]) by {
                                assert(index.joins_v().take(pre.joins_v().len() as int)
                                    =~= pre.joins_v());
                            }
                            assert(index.join_pair_exists(pid as int, index.tags_v()[ti].id));
                            assert(tag_entry_matches(entry_v(entries@[k2]), index.tags_v()[ti]));
                        } else {
                            let ti = choose|ti: int|
                                0 <= ti < index.tags_v().len() && tag_entry_matches(
                                    entry_v(entries@[k2]),
                                    #[trigger] index.tags_v()[ti],
                                ) && index.tags_v()[ti].id == tid as int;
                            assert(index.join_pair_exists(pid as int, index.tags_v()[ti].id));
                        }
                    }
                }
            },
            Err(_) => {
                proof {
                    assert(false);
                }
            },
        }
    }
}

/// Register or refresh the point behind a backing path: reuse the row with
/// this path, else the row with the same content, else create one with a
/// fresh id; attach the given tags and the derived tags; leave the row
/// pointing at this path with this content hash.  Returns the point's id.
#[verifier::loop_isolation(false)]
#[verifier::rlimit(100)]
#[verifier::spinoff_prover]
pub fn update_point_by_path(
    index: &mut TagIndex,
    name: String,
    path_str: String,
    content: &Vec<u8>,
    dir: bool,
    tags: &TagEntries,
    autotags: &TagEntries,
) -> (r: i32)
    requires
        old(index).wf(),
        old(index).points@.len() < 0x7fff_fffe,
        old(index).tags@.len() + tags@.len() + autotags@.len() < 0x7fff_ffff,
        old(index).joins@.len() + tags@.len() + autotags@.len() < 0x7fff_ffff,
    ensures
        final(index).wf(),
        match first_idx_where(old(index).points_v(), by_path_pred(path_str@)) {
            Some(i) => r as int == old(index).points_v()[i].id,
            None => match first_idx_where(
                old(index).points_v(),
                by_hash_pred(spec_content_hash(content@)),
            ) {
                Some(i) => r as int == old(index).points_v()[i].id,
                None => !old(index).has_point_id(r as int),
            },
        },
        forall|pid: int|
            final(index).has_point_id(pid) <==> old(index).has_point_id(pid) || pid == r as int,
        exists|i: int|
            0 <= i < final(index).points_v().len() && (#[trigger] final(index).points_v()[i]).id
                == r as int && final(index).points_v()[i].path == Some(path_str@) && final(index).points_v()[i].hash == spec_content_hash(content@) && (!old(index).has_point_id(
                r as int,
            ) ==> final(index).points_v()[i].name == name@ && final(index).points_v()[i].dir
                == dir),
        spec_entries_attached(*final(index), r as int, tags@),
        spec_entries_attached(*final(index), r as int, autotags@),
{
    proof {
        index.lemma_views();
    }
    let ghost o = *index;
    let h = content_hash(content);
    let pid: i32 = match find_by_path(index, &path_str) {
        Some(id) => id,
        None => {
            match find_by_hash(index, &h) {
                Some(id) => id,
                None => {
                    let used = crate::index::point_ids_vec(index);
                    let fresh = crate::index::alloc_id(&used);
                    let row = Point {
                        id: fresh,
                        name: name.clone(),
                        path: Some(path_str.clone()),
                        hash: h.clone(),
                        dir,
                    };
                    let ghost rv = row@;
                    let ok = insert_point_row(index, row);
                    proof {
                        assert(ok);
                        assert(index.points_v() == o.points_v().push(rv));
                    }
                    fresh
                },
            }
        },
    };
    let ghost after_sel = *index;
    proof {
        assert(after_sel.has_point_id(pid as int)) by {
            match first_idx_where(o.points_v(), by_path_pred(path_str@)) {
                Some(i) => {
                    crate::text::lemma_first_idx_where(o.points_v(), by_path_pred(path_str@));
                    assert(o.points_v()[i].id == pid as int);
                },
                None => {
                    match first_idx_where(o.points_v(), by_hash_pred(spec_content_hash(content@))) {
                        Some(i) => {
                            crate::text::lemma_first_idx_where(
                                o.points_v(),
                                by_hash_pred(spec_content_hash(content@)),
                            );
                            assert(o.points_v()[i].id == pid as int);
                        },
                        None => {
                            assert(after_sel.points_v().last().id == pid as int);
                        },
                    }
                },
            }
        }
    }
    apply_tags(index, pid, tags);
    let ghost after_manual = *index;
    crate::index::set_point_path_hash(index, pid, path_str, h);
    let ghost after_set = *index;
    proof {
        assert(after_set.has_point_id(pid as int)) by {
            let w = choose|w: int|
                0 <= w < after_manual.points_v().len() && (
                #[trigger] after_manual.points_v()[w]).id == pid as int;
            assert(after_set.points_v()[w].id == pid as int);
        }
        assert(after_set.tags_v() == after_manual.tags_v());
        assert(after_set.joins_v() == after_manual.joins_v());
    }
    apply_tags(index, pid, autotags);
    proof {
        let fin = *index;
        assert(fin.points_v() == after_set.points_v());
        // the selected row, afterwards
        let wi = choose|wi: int|
            0 <= wi < after_sel.points_v().len() && (#[trigger] after_sel.points_v()[wi]).id
                == pid as int;
        assert(after_manual.points_v()[wi].id == pid as int);
        assert(after_set.points_v()[wi] == PointV {
            id: after_manual.points_v()[wi].id,
            name: after_manual.points_v()[wi].name,
            path: Some(path_str@),
            hash: spec_content_hash(content@),
            dir: after_manual.points_v()[wi].dir,
        });
        if !o.has_point_id(pid as int) {
            // a fresh row was pushed at the end
            assert(after_sel.points_v() == o.points_v().push(after_sel.points_v().last()));
            let last = after_sel.points_v().len() - 1;
            assert(after_sel.points_v()[last].id == pid as int);
            if wi != last {
                assert(after_sel.points_v()[wi].id == after_sel.points_v()[last].id);
                assert(false);
            }
            assert(after_sel.points_v()[wi].name == name@);
            assert(after_sel.points_v()[wi].dir == dir);
        }
        assert(exists|i: int|
            0 <= i < fin.points_v().len() && (#[trigger] fin.points_v()[i]).id == pid as int
                && fin.points_v()[i].path == Some(path_str@) && fin.points_v()[i].hash
                == spec_content_hash(content@) && (!o.has_point_id(pid as int)
                ==> fin.points_v()[i].name == name@ && fin.points_v()[i].dir == dir)) by {
            assert(0 <= wi < fin.points_v().len() && fin.points_v()[wi].id == pid as int
                && fin.points_v()[wi].path == Some(path_str@) && fin.points_v()[wi].hash
                == spec_content_hash(content@) && (!o.has_point_id(pid as int)
                ==> fin.points_v()[wi].name == name@ && fin.points_v()[wi].dir == dir));
        }
        // the manual entries survive the setter and the second pass
        assert(spec_entries_attached(after_set, pid as int, tags@)) by {
            assert(after_manual.tags_v().is_prefix_of(after_set.tags_v())) by {
                assert(after_set.tags_v().take(after_manual.tags_v().len() as int)
                    =~= after_manual.tags_v());
            }
            assert(after_manual.joins_v().is_prefix_of(after_set.joins_v())) by {
                assert(after_set.joins_v().take(after_manual.joins_v().len() as int)
                    =~= after_manual.joins_v());
            }
            lemma_attached_preserved(after_manual, after_set, pid as int, tags@);
        }
        assert(spec_entries_attached(fin, pid as int, tags@)) by {
            lemma_attached_preserved(after_set, fin, pid as int, tags@);
        }
        assert(spec_entries_attached(fin, pid as int, autotags@));
        // the whole tag table: the old rows lead, and every appended row
        // carries the exact columns of some entry of one of the two lists
        assert(o.tags_v().is_prefix_of(fin.tags_v())) by {
            assert(after_sel.tags_v() == o.tags_v());
            assert(fin.tags_v().take(o.tags_v().len() as int) =~= o.tags_v());
        }
        assert forall|ti: int|
            o.tags_v().len() <= ti < fin.tags_v().len() implies spec_created_from(
            #[trigger] fin.tags_v()[ti],
            tags@,
        ) || spec_created_from(fin.tags_v()[ti], autotags@) by {
            assert(after_sel.tags_v() == o.tags_v());
            assert(after_set.tags_v() == after_manual.tags_v());
            if ti < after_manual.tags_v().len() {
                assert(fin.tags_v()[ti] == after_manual.tags_v()[ti]) by {
                    assert(after_set.tags_v().is_prefix_of(fin.tags_v()));
                    assert(fin.tags_v().take(after_set.tags_v().len() as int)
                        =~= after_set.tags_v());
                }
                assert(spec_created_from(after_manual.tags_v()[ti], tags@));
            } else {
                assert(spec_created_from(fin.tags_v()[ti], autotags@));
            }
        }
        // point ids: the old ones plus possibly the fresh one
        assert forall|pid2: int|
            fin.has_point_id(pid2) <==> o.has_point_id(pid2) || pid2 == pid as int by {
            if fin.has_point_id(pid2) {
                let a = choose|a: int|
                    0 <= a < fin.points_v().len() && (#[trigger] fin.points_v()[a]).id == pid2;
                if a < o.points_v().len() {
                    assert(after_sel.points_v()[a].id == pid2);
                    assert(o.points_v()[a].id == pid2 || after_sel.points_v()
                        == o.points_v().push(after_sel.points_v().last()));
                    if after_sel.points_v().len() == o.points_v().len() {
                        assert(o.has_point_id(pid2));
                    } else {
                        if a < o.points_v().len() {
                            assert(o.points_v()[a].id == pid2);
                        }
                    }
                } else {
                    assert(after_sel.points_v()[a].id == pid as int);
                }
            }
            if o.has_point_id(pid2) {
                let a = choose|a: int|
                    0 <= a < o.points_v().len() && (#[trigger] o.points_v()[a]).id == pid2;
                assert(after_sel.points_v()[a].id == pid2);
                assert(after_set.points_v()[a].id == pid2);
                assert(fin.has_point_id(pid2));
            }
            if pid2 == pid as int {
                let a = choose|a: int|
                    0 <= a < after_set.points_v().len() && (
                    #[trigger] after_set.points_v()[a]).id == pid as int;
                assert(fin.has_point_id(pid2));
            }
        }
    }
    pid
}

/// Refresh a point's backing path for the bulk update pass: a missing path
/// takes the new one; a present path yields to a different new one, and is
/// dropped when the backing file is gone and no new one is given.  Returns
/// the path the point ends up with.
#[verifier::loop_isolation(false)]
pub fn resolve_point_path(
    index: &mut TagIndex,
    point: &Point,
    new_path: Option<String>,
    backing_missing: bool,
) -> (r: Option<String>)
    requires
        old(index).wf(),
    ensures
        final(index).wf(),
        final(index).tags_v() == old(index).tags_v(),
        final(index).joins_v() == old(index).joins_v(),
        match (point@.path, new_path) {
            (None, Some(np)) => r == Some(np),
            (Some(cp), Some(np)) => r matches Some(rv) && rv@ == (if cp != np@ {
                np@
            } else {
                cp
            }),
            (Some(cp), None) => if backing_missing {
                r is None
            } else {
                r matches Some(rv) && rv@ == cp
            },
            (None, None) => r is None,
        },
        forall|i: int|
            0 <= i < old(index).points_v().len() ==> #[trigger] final(index).points_v()[i] == (
            if old(index).points_v()[i].id == point@.id {
                PointV {
                    id: old(index).points_v()[i].id,
                    name: old(index).points_v()[i].name,
                    path: match r {
                        Some(rv) => Some(rv@),
                        None => None,
                    },
                    hash: old(index).points_v()[i].hash,
                    dir: old(index).points_v()[i].dir,
                }
            } else {
                old(index).points_v()[i]
            }),
        final(index).points_v().len() == old(index).points_v().len(),
{
    match (&point.path, &new_path) {
        (None, Some(np)) => {
            set_point_path(index, point.id, Some(np.clone()));
            Some(np.clone())
        },
        (Some(cp), Some(np)) => {
            if !(*cp == *np) {
                set_point_path(index, point.id, Some(np.clone()));
                Some(np.clone())
            } else {
                set_point_path(index, point.id, Some(cp.clone()));
                Some(cp.clone())
            }
        },
        (Some(cp), None) => {
            if backing_missing {
                set_point_path(index, point.id, None);
                None
            } else {
                set_point_path(index, point.id, Some(cp.clone()));
                Some(cp.clone())
            }
        },
        (None, None) => {
            set_point_path(index, point.id, None);
            None
        },
    }
}

/// Point the row with this id at a new backing path; its other columns
/// stay.
#[verifier::loop_isolation(false)]
fn set_point_path(index: &mut TagIndex, id: i32, new_path: Option<String>)
    requires
        old(index).wf(),
    ensures
        final(index).wf(),
        final(index).tags_v() == old(index).tags_v(),
        final(index).joins_v() == old(index).joins_v(),
        final(index).points_v().len() == old(index).points_v().len(),
        forall|i: int|
            0 <= i < old(index).points_v().len() ==> #[trigger] final(index).points_v()[i] == (
            if old(index).points_v()[i].id == id as int {
                PointV {
                    id: old(index).points_v()[i].id,
                    name: old(index).points_v()[i].name,
                    path: match new_path {
                        Some(np) => Some(np@),
                        None => None,
                    },
                    hash: old(index).points_v()[i].hash,
                    dir: old(index).points_v()[i].dir,
                }
            } else {
                old(index).points_v()[i]
            }),
{
    proof {
        index.lemma_views();
    }
    let n = index.points.len();
    for i in 0..n
        invariant
            *index == *old(index),
            forall|j: int| 0 <= j < i ==> (#[trigger] index.points_v()[j]).id != id as int,
    {
        proof {
            assert(index.points_v()[i as int] == index.points@[i as int]@);
        }
        if index.points[i].id == id {
            let ghost o = *index;
            let old_row = index.points.remove(i);
            let new_row = Point {
                id: old_row.id,
                name: old_row.name,
                path: new_path,
                hash: old_row.hash,
                dir: old_row.dir,
            };
            index.points.insert(i, new_row);
            proof {
                index.lemma_views();
                assert(index.tags_v() == o.tags_v());
                assert(index.joins_v() == o.joins_v());
                assert(index.points_v().len() == o.points_v().len());
                assert forall|j: int|
                    0 <= j < o.points_v().len() implies #[trigger] index.points_v()[j] == (
                if o.points_v()[j].id == id as int {
                    PointV {
                        id: o.points_v()[j].id,
                        name: o.points_v()[j].name,
                        path: match new_path {
                            Some(np) => Some(np@),
                            None => None,
                        },
                        hash: o.points_v()[j].hash,
                        dir: o.points_v()[j].dir,
                    }
                } else {
                    o.points_v()[j]
                }) by {
                    if j < i {
                        assert(index.points@[j] == o.points@[j]);
                        assert(o.points_v()[j].id != id as int);
                    } else if j == i {
                        assert(index.points_v()[j] == index.points@[j]@);
                    } else {
                        assert(index.points@[j] == o.points@[j]);
                        if o.points_v()[j].id == id as int {
                            assert(o.points_v()[i as int].id == o.points_v()[j].id);
                            assert(false);
                        }
                    }
                }
                assert forall|a: int, b: int|
                    0 <= a < b < index.points_v().len() implies index.points_v()[a].id
                    != index.points_v()[b].id by {
                    assert(index.points_v()[a].id == o.points_v()[a].id);
                    assert(index.points_v()[b].id == o.points_v()[b].id);
                }
                assert forall|a: int|
                    0 <= a < index.joins_v().len() implies index.has_point_id(
                    #[trigger] index.joins_v()[a].point_id,
                ) && index.has_tag_id(index.joins_v()[a].tag_id) by {
                    assert(o.has_point_id(o.joins_v()[a].point_id));
                    let k = choose|k: int|
                        0 <= k < o.points_v().len() && o.points_v()[k].id
                            == o.joins_v()[a].point_id;
                    assert(index.points_v()[k].id == o.joins_v()[a].point_id);
                    assert(o.has_tag_id(o.joins_v()[a].tag_id));
                }
                assert(index.wf());
            }
            return ;
        }
    }
    proof {
        assert forall|j: int|
            0 <= j < old(index).points_v().len() implies #[trigger] final(index).points_v()[j]
            == (if old(index).points_v()[j].id == id as int {
            PointV {
                id: old(index).points_v()[j].id,
                name: old(index).points_v()[j].name,
                path: match new_path {
                    Some(np) => Some(np@),
                    None => None,
                },
                hash: old(index).points_v()[j].hash,
                dir: old(index).points_v()[j].dir,
            }
        } else {
            old(index).points_v()[j]
        }) by {
            assert(index.points_v()[j].id != id as int);
        }
    }
}


} // verus!
