//! Deriving tags from file inspection.
//!
//! The backing file is inspected outside (its magic description, its
//! extension, the project markers of a directory, its audio metadata), and
//! this module turns those plain values into tag entries: a keyed list in
//! which a later rule overrides an earlier one's value, every value
//! stripped of stray NUL characters.

use vstd::prelude::*;

use crate::ingest::{TagContent, TagEntries, TagEntry};
use crate::text::{
    chars_of, count_while, find_chars, first_idx_where, first_match, i64_to_string, int_string,
    is_space, lemma_count_while, lemma_count_while_rev, lemma_count_while_unique,
    lemma_first_idx_where, lemma_first_idx_where_unique, nul_pred, parse_i64, space_pred,
    split_chars, split_on, string_of, subvec, trim_nul_chars, trim_nuls,
};

verus! {

/// The names of a tag-entry list.
pub open spec fn entry_keys(es: Seq<TagEntry>) -> Seq<Seq<char>> {
    es.map_values(|e: TagEntry| e.0@)
}

/// No two entries share a name.
pub open spec fn keys_unique(es: Seq<TagEntry>) -> bool {
    forall|i: int, j: int| 0 <= i < j < es.len() ==> entry_keys(es)[i] != entry_keys(es)[j]
}

/// The position of the entry named `key`, if any.
pub open spec fn key_idx(es: Seq<TagEntry>, key: Seq<char>) -> Option<int> {
    first_idx_where(es, |e: TagEntry| e.0@ == key)
}

/// Insert or overwrite one entry: every existing name keeps its position,
/// and the entry named here ends up present with this content.
#[verifier::loop_isolation(false)]
fn upsert_entry(es: &mut Vec<TagEntry>, name: String, content: TagContent)
    requires
        keys_unique(old(es)@),
    ensures
        keys_unique(final(es)@),
        old(es)@.len() <= final(es)@.len() <= old(es)@.len() + 1,
        forall|j: int|
            0 <= j < old(es)@.len() ==> (#[trigger] final(es)@[j]).0@ == old(es)@[j].0@,
        forall|j: int|
            0 <= j < old(es)@.len() && old(es)@[j].0@ != name@ ==> #[trigger] final(es)@[j]
                == old(es)@[j],
        exists|k: int|
            0 <= k < final(es)@.len() && (#[trigger] final(es)@[k]).0@ == name@
                && crate::index::payload_v(final(es)@[k].1) == crate::index::payload_v(content),
{
    let ghost pred = |e: TagEntry| e.0@ == name@;
    let n = es.len();
    for i in 0..n
        invariant
            *es == *old(es),
            forall|j: int| 0 <= j < i ==> !pred(#[trigger] es@[j]),
    {
        if es[i].0 == name {
            let ghost o = es@;
            let _ = es.remove(i);
            es.insert(i, (name, content));
            proof {
                assert(es@.len() == o.len());
                assert(forall|j: int|
                    0 <= j < o.len() && j != i ==> #[trigger] es@[j] == o[j]);
                assert(es@[i as int].0@ == o[i as int].0@);
                assert(es@[i as int].0@ == name@);
                assert(crate::index::payload_v(es@[i as int].1) == crate::index::payload_v(
                    content,
                ));
                assert forall|a: int, b: int|
                    0 <= a < b < es@.len() implies entry_keys(es@)[a] != entry_keys(es@)[b] by {
                    assert(entry_keys(es@)[a] == es@[a].0@);
                    assert(entry_keys(es@)[b] == es@[b].0@);
                    assert(entry_keys(o)[a] == o[a].0@);
                    assert(entry_keys(o)[b] == o[b].0@);
                    assert(o[a].0@ != o[b].0@);
                }
            }
            return ;
        }
        proof {
            assert(!pred(es@[i as int]));
        }
    }
    let ghost o = es@;
    es.push((name, content));
    proof {
        assert(es@[es@.len() - 1].0@ == name@);
        assert(crate::index::payload_v(es@[es@.len() - 1].1) == crate::index::payload_v(
            content,
        ));
        assert forall|a: int, b: int|
            0 <= a < b < es@.len() implies entry_keys(es@)[a] != entry_keys(es@)[b] by {
            assert(entry_keys(es@)[a] == es@[a].0@);
            assert(entry_keys(es@)[b] == es@[b].0@);
            if b < es@.len() - 1 {
                assert(entry_keys(o)[a] == o[a].0@);
                assert(entry_keys(o)[b] == o[b].0@);
            } else {
                if a < es@.len() - 1 {
                    assert(!pred(o[a]));
                }
            }
        }
    }
}

/// What the lowercase form of a string is; `str::to_lowercase` computes it
/// from the characters alone.
pub uninterp spec fn lower_of(s: Seq<char>) -> Seq<char>;

/// Relies on `str::to_lowercase`: the result depends on the characters
/// alone, and an empty string stays empty.
#[verifier::external_body]
fn lowercase(s: &String) -> (r: String)
    ensures
        r@ == lower_of(s@),
        s@.len() == 0 ==> r@.len() == 0,
{
    s.as_str().to_lowercase()
}

/// The project markers probed inside a directory point.
pub struct DirMarkers {
    pub git: bool,
    pub package_json: bool,
    pub cargo_toml: bool,
    pub elm_json: bool,
}

/// The audio metadata read from a file's ID3 block.
pub struct Id3Info {
    pub album: Option<String>,
    pub artist: Option<String>,
    pub album_artist: Option<String>,
    pub genre: Option<String>,
    pub year: Option<i32>,
    pub comment: Option<String>,
}

/// The name `magic` as a sequence.
pub open spec fn magic_key() -> Seq<char> {
    seq!['m', 'a', 'g', 'i', 'c']
}

/// The name `type` as a sequence.
pub open spec fn type_key() -> Seq<char> {
    seq!['t', 'y', 'p', 'e']
}

/// The prefix that marks an MP4 container segment.
pub open spec fn mp4_prefix() -> Seq<char> {
    seq!['M', 'P', '4', ' ']
}

/// The infix that marks an ID3 audio segment.
pub open spec fn id3_marker() -> Seq<char> {
    seq![' ', 'I', 'D', '3', ' ']
}

/// The segment that marks WAVE audio.
pub open spec fn wave_tok() -> Seq<char> {
    seq!['W', 'A', 'V', 'E', ' ', 'a', 'u', 'd', 'i', 'o']
}

/// The separator between magic segments.
pub open spec fn seg_sep() -> Seq<char> {
    seq![',', ' ']
}

/// Whether a segment's rules overwrite the `type` entry: the MP4, ID3 and
/// WAVE rules do; nothing else touches it.
pub open spec fn spec_type_override(seg: Seq<char>) -> bool {
    ||| (seg.len() >= 4 && seg.take(4) == mp4_prefix())
    ||| first_match(seg, id3_marker()) is Some
    ||| seg == wave_tok()
}

/// Whether a character sequence occurs inside another.
fn contains_sub(h: &Vec<char>, n: &Vec<char>) -> (r: bool)
    ensures
        r == (first_match(h@, n@) is Some),
{
    match find_chars(h, n) {
        Some(_) => true,
        None => false,
    }
}

/// Whether one sequence starts with another.
fn starts_with(h: &Vec<char>, p: &Vec<char>) -> (r: bool)
    ensures
        r == (h@.len() >= p@.len() && h@.take(p@.len() as int) == p@),
{
    if p.len() > h.len() {
        return false;
    }
    let head = subvec(h, 0, p.len());
    let eq = crate::text::chars_equal(&head, p);
    proof {
        assert(head@ == h@.take(p@.len() as int));
    }
    eq
}

/// The first white-space-separated word of a sequence, deciding
/// [`crate::text::spec_first_word`].
#[verifier::loop_isolation(false)]
fn first_word(v: &Vec<char>) -> (r: Option<Vec<char>>)
    ensures
        match r {
            Some(w) => crate::text::spec_first_word(v@) == Some(w@),
            None => crate::text::spec_first_word(v@) is None,
        },
{
    let n = v.len();
    let mut a: usize = 0;
    while a < n && is_space(v[a])
        invariant
            a <= n,
            forall|j: int| 0 <= j < a ==> space_pred()(#[trigger] v@[j]),
        decreases n - a,
    {
        a = a + 1;
    }
    proof {
        lemma_count_while_unique(v@, space_pred(), a as int);
    }
    if a == n {
        return None;
    }
    let mut b = a;
    while b < n && !is_space(v[b])
        invariant
            a <= b <= n,
            forall|j: int| a <= j < b ==> crate::text::nonspace_pred()(#[trigger] v@[j]),
        decreases n - b,
    {
        b = b + 1;
    }
    proof {
        assert forall|j: int| 0 <= j < b - a implies crate::text::nonspace_pred()(
            #[trigger] v@.skip(a as int)[j],
        ) by {
            assert(v@.skip(a as int)[j] == v@[a + j]);
        }
        if b < n {
            assert(v@.skip(a as int)[b - a] == v@[b as int]);
        }
        lemma_count_while_unique(v@.skip(a as int), crate::text::nonspace_pred(), b - a as int);
    }
    if b == a {
        proof {
            assert(!space_pred()(v@[a as int]));
            assert(false);
        }
        return None;
    }
    let w = subvec(v, a, b);
    proof {
        assert(w@ == v@.subrange(a as int, b as int));
        assert(v@.subrange(a as int, a + count_while(v@.skip(a as int), crate::text::nonspace_pred()))
            == v@.subrange(a as int, b as int));
    }
    Some(w)
}

/// Derive the generic tags of a backing file from what was inspected
/// outside: the magic description, the file extension, the directory's
/// project markers, and the audio metadata.  Rules write into a keyed
/// list, later rules overriding earlier values; the `type` entry leads,
/// holding the lowercased first word of the first segment until an MP4,
/// ID3 or WAVE rule overrides it; the whole description goes in under
/// `magic`, and every value is stripped of leading and trailing NUL
/// characters.
#[verifier::loop_isolation(false)]
#[verifier::rlimit(100)]
#[verifier::spinoff_prover]
pub fn generic_tags(
    magic_data: &String,
    extension: &Option<String>,
    markers: &DirMarkers,
    id3: &Option<Id3Info>,
) -> (r: TagEntries)
    ensures
        keys_unique(r@),
        r@.len() >= 1,
        r@[0].0@ == type_key(),
        exists|k: int|
            0 <= k < r@.len() && (#[trigger] r@[k]).0@ == magic_key()
                && crate::index::payload_v(r@[k].1) == Some((trim_nuls(magic_data@), None::<int>)),
        forall|k: int|
            0 <= k < r@.len() ==> (match crate::index::payload_v((#[trigger] r@[k]).1) {
                Some(p) => p.0 == trim_nuls(p.0),
                None => true,
            }),
        (forall|k: int|
            0 <= k < split_on(magic_data@, seg_sep()).len() ==> !spec_type_override(
                #[trigger] split_on(magic_data@, seg_sep())[k],
            )) ==> crate::index::payload_v(r@[0].1) == (match crate::text::spec_first_word(
            split_on(magic_data@, seg_sep())[0],
        ) {
            Some(w) => Some((trim_nuls(lower_of(w)), None::<int>)),
            None => None,
        }),
{
    let magic_chars = chars_of(magic_data.as_str());
    let mut sep: Vec<char> = Vec::new();
    sep.push(',');
    sep.push(' ');
    proof {
        assert(sep@ =~= seg_sep());
    }
    let segments = split_chars(&magic_chars, &sep);
    let ghost segsv = split_on(magic_data@, seg_sep());
    let ns = segments.len();
    proof {
        assert(segments.deep_view() == segsv);
        assert(segsv.len() >= 1);
        assert(ns == segsv.len());
    }
    let mut es: Vec<TagEntry> = Vec::new();
    proof {
        assert(segments.deep_view()[0] == segments@[0]@);
    }
    insert_type_entry(&mut es, &segments[0]);
    let ghost ty0 = es@[0];
    proof {
        assert(crate::index::payload_v(ty0.1) == (match crate::text::spec_first_word(segsv[0]) {
            Some(w) => Some((lower_of(w), None::<int>)),
            None => None,
        }));
    }
    let png = chars_of("PNG image data");
    let jpeg = chars_of("JPEG image data");
    let e1 = crate::text::chars_equal(&segments[0], &png);
    let e2 = crate::text::chars_equal(&segments[0], &jpeg);
    let is_image = e1 || e2;
    let mut i: usize = 0;
    while i < ns
        invariant
            i <= ns,
            ns == segments@.len(),
            ns == segsv.len(),
            segments.deep_view() == segsv,
            keys_unique(es@),
            es@.len() >= 1,
            es@[0].0@ == type_key(),
            (forall|k: int| 0 <= k < i ==> !spec_type_override(#[trigger] segsv[k])) ==> es@[0]
                == ty0,
        decreases ns - i,
    {
        let seg = &segments[i];
        proof {
            assert(seg@ == segsv[i as int]);
        }
        let ghost before = es@;
        apply_segment_rules(&mut es, seg, is_image, magic_data, extension, markers, id3);
        proof {
            if forall|k: int| 0 <= k < i + 1 ==> !spec_type_override(#[trigger] segsv[k]) {
                assert(!spec_type_override(segsv[i as int]));
                assert(before[0] == ty0);
                assert(es@[0] == before[0]);
            }
        }
        i = i + 1;
    }
    let ghost es_snap = es@;
    let r = finish_tags(es, magic_data);
    proof {
        if forall|k: int| 0 <= k < segsv.len() ==> !spec_type_override(#[trigger] segsv[k]) {
            assert(es_snap[0] == ty0);
        }
    }
    r
}

/// The `type` entry of the first segment: its first word, lowercased.
/// The table is empty, so the entry lands in front.
#[verifier::loop_isolation(false)]
#[verifier::spinoff_prover]
fn insert_type_entry(es: &mut Vec<TagEntry>, seg: &Vec<char>)
    requires
        old(es)@.len() == 0,
    ensures
        keys_unique(final(es)@),
        final(es)@.len() >= 1,
        final(es)@[0].0@ == type_key(),
        crate::index::payload_v(final(es)@[0].1) == (match crate::text::spec_first_word(seg@) {
            Some(w) => Some((lower_of(w), None::<int>)),
            None => None,
        }),
{
    let tyname = String::from_str("type");
    proof {
        reveal_strlit("type");
        assert(tyname@ =~= type_key());
        assert(keys_unique(old(es)@));
    }
    let content: TagContent = match first_word(seg) {
        Some(w) => {
            let ws = string_of(&w);
            let lw = lowercase(&ws);
            Some((lw, None))
        },
        None => None,
    };
    let ghost tn = tyname@;
    upsert_entry(es, tyname, content);
    proof {
        let k = choose|k: int|
            0 <= k < es@.len() && (#[trigger] es@[k]).0@ == tn
                && crate::index::payload_v(es@[k].1) == crate::index::payload_v(content);
        assert(k == 0);
    }
}

/// Record the whole description under `magic` and strip stray NUL
/// characters off every value, keeping the `type` entry in front intact
/// but for the trim.
#[verifier::loop_isolation(false)]
#[verifier::rlimit(100)]
#[verifier::spinoff_prover]
fn finish_tags(es0: Vec<TagEntry>, magic_data: &String) -> (r: Vec<TagEntry>)
    requires
        keys_unique(es0@),
        es0@.len() >= 1,
        es0@[0].0@ == type_key(),
    ensures
        keys_unique(r@),
        r@.len() >= 1,
        r@[0].0@ == type_key(),
        crate::index::payload_v(r@[0].1) == (match crate::index::payload_v(es0@[0].1) {
            Some(p) => Some((trim_nuls(p.0), p.1)),
            None => None,
        }),
        exists|k: int|
            0 <= k < r@.len() && (#[trigger] r@[k]).0@ == magic_key()
                && crate::index::payload_v(r@[k].1) == Some((trim_nuls(magic_data@), None::<int>)),
        forall|k: int|
            0 <= k < r@.len() ==> (match crate::index::payload_v((#[trigger] r@[k]).1) {
                Some(p) => p.0 == trim_nuls(p.0),
                None => true,
            }),
{
    let mut es = es0;
    let mname = String::from_str("magic");
    proof {
        reveal_strlit("magic");
        assert(mname@ =~= magic_key());
    }
    let ghost before_magic = es@;
    let ghost mn = mname@;
    let mcontent: TagContent = Some((magic_data.clone(), None));
    let ghost mpay = crate::index::payload_v(mcontent);
    proof {
        assert(mpay == Some((magic_data@, None::<int>)));
    }
    upsert_entry(&mut es, mname, mcontent);
    let ghost mk_idx = choose|k: int|
        0 <= k < es@.len() && (#[trigger] es@[k]).0@ == mn && crate::index::payload_v(es@[k].1)
            == mpay;
    proof {
        assert(es@[0].0@ == type_key());
        // the magic entry does not displace the type entry in front
        assert(es@[0] == before_magic[0]) by {
            reveal_strlit("magic");
            assert(before_magic[0].0@ != mn);
        }
    }
    // strip stray NUL characters off every value
    let n = es.len();
    let mut out: Vec<TagEntry> = Vec::new();
    for k in 0..n
        invariant
            n == es@.len(),
            out@.len() == k,
            forall|j: int|
                0 <= j < k ==> (#[trigger] out@[j]).0@ == es@[j].0@ && crate::index::payload_v(
                    out@[j].1,
                ) == (match crate::index::payload_v(es@[j].1) {
                    Some(p) => Some((trim_nuls(p.0), p.1)),
                    None => None,
                }),
    {
        let e = &es[k];
        let name2 = e.0.clone();
        let content2: TagContent = match &e.1 {
            Some((v, sv)) => {
                let vc = chars_of(v.as_str());
                let trimmed = trim_nul_chars(&vc);
                Some((string_of(&trimmed), *sv))
            },
            None => None,
        };
        out.push((name2, content2));
    }
    proof {
        assert(keys_unique(out@)) by {
            assert forall|a: int, b: int|
                0 <= a < b < out@.len() implies entry_keys(out@)[a] != entry_keys(out@)[b] by {
                assert(entry_keys(out@)[a] == out@[a].0@);
                assert(entry_keys(out@)[b] == out@[b].0@);
                assert(entry_keys(es@)[a] == es@[a].0@);
                assert(entry_keys(es@)[b] == es@[b].0@);
            }
        }
        assert(out@[mk_idx].0@ == magic_key() && crate::index::payload_v(out@[mk_idx].1) == Some(
            (trim_nuls(magic_data@), None::<int>),
        ));
        assert(out@[0].0@ == type_key());
        assert forall|k: int|
            0 <= k < out@.len() implies (match crate::index::payload_v((#[trigger] out@[k]).1) {
            Some(p) => p.0 == trim_nuls(p.0),
            None => true,
        }) by {
            match crate::index::payload_v(es@[k].1) {
                Some(p) => {
                    crate::text::lemma_trim_nuls_idempotent(p.0);
                },
                None => {},
            }
        }
    }
    out
}

/// Insert or overwrite an entry named by a literal.
fn add_entry(es: &mut Vec<TagEntry>, name: &str, content: TagContent)
    requires
        keys_unique(old(es)@),
    ensures
        keys_unique(final(es)@),
        old(es)@.len() <= final(es)@.len(),
        forall|j: int|
            0 <= j < old(es)@.len() ==> (#[trigger] final(es)@[j]).0@ == old(es)@[j].0@,
        forall|j: int|
            0 <= j < old(es)@.len() && old(es)@[j].0@ != name@ ==> #[trigger] final(es)@[j]
                == old(es)@[j],
{
    upsert_entry(es, String::from_str(name), content);
}

/// Insert or overwrite an entry with a literal value.
fn add_value(es: &mut Vec<TagEntry>, name: &str, value: &str)
    requires
        keys_unique(old(es)@),
    ensures
        keys_unique(final(es)@),
        old(es)@.len() <= final(es)@.len(),
        forall|j: int|
            0 <= j < old(es)@.len() ==> (#[trigger] final(es)@[j]).0@ == old(es)@[j].0@,
        forall|j: int|
            0 <= j < old(es)@.len() && old(es)@[j].0@ != name@ ==> #[trigger] final(es)@[j]
                == old(es)@[j],
{
    add_entry(es, name, Some((String::from_str(value), None)));
}

/// Apply the tag rules of one magic segment.  A segment that is not an
/// MP4, ID3 or WAVE marker leaves the `type` entry in front untouched.
#[verifier::loop_isolation(false)]
#[verifier::rlimit(100)]
#[verifier::spinoff_prover]
fn apply_segment_rules(
    es: &mut Vec<TagEntry>,
    seg: &Vec<char>,
    is_image: bool,
    magic_data: &String,
    extension: &Option<String>,
    markers: &DirMarkers,
    id3: &Option<Id3Info>,
)
    requires
        keys_unique(old(es)@),
    ensures
        keys_unique(final(es)@),
        old(es)@.len() <= final(es)@.len(),
        forall|j: int|
            0 <= j < old(es)@.len() ==> (#[trigger] final(es)@[j]).0@ == old(es)@[j].0@,
        old(es)@.len() >= 1 && old(es)@[0].0@ == type_key() && !spec_type_override(seg@)
            ==> final(es)@[0] == old(es)@[0],
{
        if is_image {
            let mut xsep: Vec<char> = Vec::new();
            xsep.push('x');
            let rsplit = split_chars(seg, &xsep);
            if rsplit.len() == 2 {
                let w = crate::text::trim_space_chars(&rsplit[0]);
                let h = crate::text::trim_space_chars(&rsplit[1]);
                let mut resv = string_of(&w);
                resv.append("x");
                let hs = string_of(&h);
                resv.append(hs.as_str());
                add_entry(es, "resolution", Some((resv, None)));
                let wsort = parse_i64(&w);
                add_entry(es, "width", Some((string_of(&w), wsort)));
                let hsort = parse_i64(&h);
                add_entry(es, "height", Some((string_of(&h), hsort)));
            }
            let mut esep: Vec<char> = Vec::new();
            esep.push('=');
            let msplit = split_chars(seg, &esep);
            if msplit.len() == 2 {
                let key = string_of(&msplit[0]);
                let val = string_of(&msplit[1]);
                if key == String::from_str("manufacturer") {
                    add_entry(es, "camera_manufacturer", Some((val, None)));
                } else if key == String::from_str("software") {
                    add_entry(es, "camera_software", Some((val, None)));
                } else if key == String::from_str("model") {
                    add_entry(es, "camera_model", Some((val, None)));
                }
            }
        }
        proof {
            if old(es)@.len() >= 1 && old(es)@[0].0@ == type_key() {
                reveal_strlit("resolution");
                reveal_strlit("width");
                reveal_strlit("height");
                reveal_strlit("camera_manufacturer");
                reveal_strlit("camera_software");
                reveal_strlit("camera_model");
                assert(es@[0] == old(es)@[0]);
            }
        }
        let segs = string_of(seg);
        if segs == String::from_str("directory") {
            if markers.git {
                add_entry(es, "code", None);
                add_entry(es, "git", None);
            }
            if markers.package_json {
                add_entry(es, "code", None);
                add_value(es, "language", "javascript");
                add_entry(es, "npm", None);
            }
            if markers.cargo_toml {
                add_entry(es, "code", None);
                add_value(es, "language", "rust");
                add_entry(es, "cargo", None);
            }
            if markers.elm_json {
                add_entry(es, "code", None);
                add_value(es, "language", "elm");
                add_entry(es, "elm", None);
            }
        }
        proof {
            if old(es)@.len() >= 1 && old(es)@[0].0@ == type_key() {
                reveal_strlit("code");
                reveal_strlit("git");
                reveal_strlit("language");
                reveal_strlit("npm");
                reveal_strlit("cargo");
                reveal_strlit("elm");
                assert(es@[0] == old(es)@[0]);
            }
        }
        if segs == String::from_str("ASCII text") {
            add_entry(es, "ascii", None);
        }
        if segs == String::from_str("C source") {
            add_entry(es, "code", None);
            add_value(es, "language", "c");
        }
        if segs == String::from_str("C source") || *magic_data == String::from_str("ASCII text") {
            add_entry(es, "text", None);
            match extension {
                Some(ext) => {
                    if *ext == String::from_str("rs") {
                        add_entry(es, "code", None);
                        add_value(es, "language", "rust");
                    } else if *ext == String::from_str("js") {
                        add_entry(es, "code", None);
                        add_value(es, "language", "javascript");
                    } else if *ext == String::from_str("elm") {
                        add_entry(es, "code", None);
                        add_value(es, "language", "elm");
                    } else if *ext == String::from_str("json") {
                        add_value(es, "language", "json");
                    } else if *ext == String::from_str("toml") {
                        add_value(es, "language", "toml");
                    } else if *ext == String::from_str("nix") {
                        add_value(es, "language", "nix");
                    } else if *ext == String::from_str("ini") {
                        add_value(es, "language", "ini");
                    }
                },
                None => {},
            }
        }
        proof {
            if old(es)@.len() >= 1 && old(es)@[0].0@ == type_key() {
                reveal_strlit("ascii");
                reveal_strlit("code");
                reveal_strlit("language");
                reveal_strlit("text");
                assert(es@[0] == old(es)@[0]);
            }
        }
        apply_segment_rules_rest(es, seg, extension, id3);
}

/// Apply the remaining rules of one magic segment: scripts, binaries,
/// archives, and audio.  Only the MP4, ID3 and WAVE rules write the
/// `type` entry in front.
#[verifier::loop_isolation(false)]
#[verifier::rlimit(100)]
#[verifier::spinoff_prover]
fn apply_segment_rules_rest(
    es: &mut Vec<TagEntry>,
    seg: &Vec<char>,
    extension: &Option<String>,
    id3: &Option<Id3Info>,
)
    requires
        keys_unique(old(es)@),
    ensures
        keys_unique(final(es)@),
        old(es)@.len() <= final(es)@.len(),
        forall|j: int|
            0 <= j < old(es)@.len() ==> (#[trigger] final(es)@[j]).0@ == old(es)@[j].0@,
        old(es)@.len() >= 1 && old(es)@[0].0@ == type_key() && !spec_type_override(seg@)
            ==> final(es)@[0] == old(es)@[0],
{
    let segs = string_of(seg);
    if segs == String::from_str("Python script") {
        add_entry(es, "code", None);
        add_value(es, "language", "python");
    }
    if segs == String::from_str("dynamically linked") {
        add_value(es, "linker", "dynamic");
    }
    let elf64 = chars_of("ELF 64-bit");
    if starts_with(seg, &elf64) {
        add_entry(es, "elf", None);
        add_value(es, "arch", "x86_64");
    }
    let elf32 = chars_of("ELF 32-bit");
    if starts_with(seg, &elf32) {
        add_entry(es, "elf", None);
        add_value(es, "arch", "i686");
    }
    if segs == String::from_str("Zip archive data") {
        add_entry(es, "archive", None);
    }
    proof {
        if old(es)@.len() >= 1 && old(es)@[0].0@ == type_key() {
            reveal_strlit("code");
            reveal_strlit("language");
            reveal_strlit("linker");
            reveal_strlit("elf");
            reveal_strlit("arch");
            reveal_strlit("archive");
            assert(es@[0] == old(es)@[0]);
        }
    }
    let mp4 = chars_of("MP4 ");
    if starts_with(seg, &mp4) {
        proof {
            reveal_strlit("MP4 ");
            assert("MP4 "@ =~= mp4_prefix());
            assert(spec_type_override(seg@));
        }
        add_value(es, "type", "mp4");
        add_entry(es, "video", None);
    }
    let id3mark = chars_of(" ID3 ");
    if contains_sub(seg, &id3mark) {
        proof {
            reveal_strlit(" ID3 ");
            assert(" ID3 "@ =~= id3_marker());
            assert(spec_type_override(seg@));
        }
        let is_mp3 = match extension {
            Some(ext) => *ext == String::from_str("mp3"),
            None => false,
        };
        if is_mp3 {
            add_value(es, "type", "mp3");
        } else {
            add_value(es, "type", "audio");
        }
        match id3 {
            Some(info) => {
                if let Some(album) = &info.album {
                    add_entry(es, "album", Some((album.clone(), None)));
                }
                if let Some(artist) = &info.artist {
                    add_entry(es, "artist", Some((artist.clone(), None)));
                }
                if let Some(aa) = &info.album_artist {
                    add_entry(es, "album_artist", Some((aa.clone(), None)));
                }
                if let Some(genre) = &info.genre {
                    add_entry(es, "genre", Some((genre.clone(), None)));
                }
                if let Some(year) = info.year {
                    let ys = crate::text::i32_to_string(year);
                    add_entry(es, "year", Some((ys, Some(year as i64))));
                }
                if let Some(comment) = &info.comment {
                    add_entry(es, "comment", Some((comment.clone(), None)));
                }
            },
            None => {},
        }
    }
    if segs == String::from_str("WAVE audio") {
        proof {
            reveal_strlit("WAVE audio");
            assert("WAVE audio"@ =~= wave_tok());
            assert(spec_type_override(seg@));
        }
        add_value(es, "type", "wav");
        add_entry(es, "audio", None);
    }
}


} // verus!
