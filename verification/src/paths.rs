//! The path grammar of the mount namespace.
//!
//! A path is a list of components.  A component equal to `@flatten` switches
//! the view: everything before it filters, everything after it continues the
//! query inside the auto-pivoted view.  `@dir` and `@flat-info` are the two
//! other reserved tokens.  A point renders as `<name>.<id>`, and the digits
//! after the final `.` of a component decode back to the point id.

use vstd::prelude::*;

use crate::models::{Point, PointV, Tag, TagV};
use crate::text::{
    after_last_dot, chars_of, first_idx_where, i32_to_string, int_string, lemma_dec_string_props,
    lemma_first_idx_where, lemma_first_idx_where_unique, lemma_int_string_parse,
    lemma_last_index_of_unique, parse_i32, spec_parse_int, string_of, suffix_after_last,
};
use vstd::utf8::encode_utf8;

verus! {

/// The reserved component `@flatten`.
pub open spec fn flatten_tok() -> Seq<char> {
    seq!['@', 'f', 'l', 'a', 't', 't', 'e', 'n']
}

/// The reserved component `@dir`.
pub open spec fn dir_tok() -> Seq<char> {
    seq!['@', 'd', 'i', 'r']
}

/// The reserved component `@flat-info`.
pub open spec fn flat_info_tok() -> Seq<char> {
    seq!['@', 'f', 'l', 'a', 't', '-', 'i', 'n', 'f', 'o']
}

/// The token `@flatten` as a `String`.
pub fn flatten_tok_str() -> (s: String)
    ensures
        s@ == flatten_tok(),
{
    let s = String::from_str("@flatten");
    proof {
        reveal_strlit("@flatten");
        assert(s@ =~= flatten_tok());
    }
    s
}

/// The token `@dir` as a `String`.
pub fn dir_tok_str() -> (s: String)
    ensures
        s@ == dir_tok(),
{
    let s = String::from_str("@dir");
    proof {
        reveal_strlit("@dir");
        assert(s@ =~= dir_tok());
    }
    s
}

/// The token `@flat-info` as a `String`.
pub fn flat_info_tok_str() -> (s: String)
    ensures
        s@ == flat_info_tok(),
{
    let s = String::from_str("@flat-info");
    proof {
        reveal_strlit("@flat-info");
        assert(s@ =~= flat_info_tok());
    }
    s
}

/// Mathematical value of a parsed path.
pub ghost enum ParsedPathV {
    /// `(filter, flat, combined)`: the components before the first
    /// `@flatten`, those after it, and their concatenation.
    Flattened(Seq<Seq<char>>, Seq<Seq<char>>, Seq<Seq<char>>),
    Normal(Seq<Seq<char>>),
}

/// A path split at its first `@flatten` component, or left whole.
pub enum ParsedPath {
    Flattened(Vec<String>, Vec<String>, Vec<String>),
    Normal(Vec<String>),
}

impl View for ParsedPath {
    type V = ParsedPathV;

    open spec fn view(&self) -> ParsedPathV {
        match self {
            ParsedPath::Flattened(a, b, c) => ParsedPathV::Flattened(
                a.deep_view(),
                b.deep_view(),
                c.deep_view(),
            ),
            ParsedPath::Normal(a) => ParsedPathV::Normal(a.deep_view()),
        }
    }
}

/// What parsing a component list yields.
pub open spec fn spec_parse_path(parts: Seq<Seq<char>>) -> ParsedPathV {
    match first_idx_where(parts, |c: Seq<char>| c == flatten_tok()) {
        None => ParsedPathV::Normal(parts),
        Some(i) => ParsedPathV::Flattened(
            parts.take(i),
            parts.skip(i + 1),
            parts.take(i) + parts.skip(i + 1),
        ),
    }
}

/// Copy a range of components.
#[verifier::loop_isolation(false)]
pub fn sub_parts(parts: &Vec<String>, from: usize, to: usize) -> (r: Vec<String>)
    requires
        from <= to <= parts@.len(),
    ensures
        r.deep_view() == parts.deep_view().subrange(from as int, to as int),
{
    let mut r: Vec<String> = Vec::new();
    assert(r.deep_view() =~~= parts.deep_view().subrange(from as int, from as int));
    let mut i = from;
    while i < to
        invariant
            from <= i <= to,
            r.deep_view() == parts.deep_view().subrange(from as int, i as int),
        decreases to - i,
    {
        let c = parts[i].clone();
        proof {
            assert(c == parts@[i as int]);
        }
        let ghost oldr = r@;
        r.push(c);
        proof {
            assert forall|k: int|
                0 <= k < r@.len() implies r.deep_view()[k] == parts.deep_view().subrange(
                from as int,
                i + 1,
            )[k] by {
                assert(r.deep_view()[k] == r@[k].deep_view());
                if k < r@.len() - 1 {
                    assert(r@[k] == oldr[k]);
                    assert(oldr[k].deep_view() == parts.deep_view().subrange(
                        from as int,
                        i as int,
                    )[k]);
                } else {
                    assert(r@[k] == parts@[i as int]);
                }
            }
            assert(r.deep_view() =~= parts.deep_view().subrange(from as int, i + 1));
        }
        i = i + 1;
    }
    assert(r.deep_view() =~~= parts.deep_view().subrange(from as int, to as int));
    r
}

/// A path extended by one more component.
pub fn push_component(path: &Vec<String>, name: &String) -> (r: Vec<String>)
    ensures
        r.deep_view() == path.deep_view().push(name@),
{
    let mut r = sub_parts(path, 0, path.len());
    proof {
        assert(path.deep_view().subrange(0, path@.len() as int) =~= path.deep_view());
    }
    let ghost oldr = r@;
    r.push(name.clone());
    proof {
        assert forall|k: int|
            0 <= k < r@.len() implies r.deep_view()[k] == path.deep_view().push(name@)[k] by {
            assert(r.deep_view()[k] == r@[k].deep_view());
            if k < r@.len() - 1 {
                assert(r@[k] == oldr[k]);
                assert(oldr[k].deep_view() == path.deep_view()[k]);
            } else {
                assert(r@[k] == name);
            }
        }
        assert(r.deep_view() =~= path.deep_view().push(name@));
    }
    r
}

/// Split a path at its first `@flatten`, deciding [`spec_parse_path`].
#[verifier::loop_isolation(false)]
pub fn parse_path(parts: &Vec<String>) -> (r: ParsedPath)
    ensures
        r@ == spec_parse_path(parts.deep_view()),
{
    let ghost fp = |c: Seq<char>| c == flatten_tok();
    let tok = flatten_tok_str();
    let n = parts.len();
    for i in 0..n
        invariant
            forall|j: int| 0 <= j < i ==> !fp(#[trigger] parts.deep_view()[j]),
    {
        proof {
            assert(parts.deep_view()[i as int] == parts@[i as int]@);
        }
        if parts[i] == tok {
            proof {
                lemma_first_idx_where_unique(parts.deep_view(), fp, i as int);
            }
            let filter = sub_parts(parts, 0, i);
            let flat = sub_parts(parts, i + 1, n);
            let mut combined = sub_parts(parts, 0, i);
            let mut flat2 = sub_parts(parts, i + 1, n);
            combined.append(&mut flat2);
            proof {
                assert(parts.deep_view().subrange(0, i as int) =~= parts.deep_view().take(i as int));
                assert(parts.deep_view().subrange(i + 1, n as int) =~= parts.deep_view().skip(
                    i + 1,
                ));
                assert(combined.deep_view() =~= filter.deep_view() + flat.deep_view());
            }
            return ParsedPath::Flattened(filter, flat, combined);
        }
    }
    proof {
        lemma_first_idx_where(parts.deep_view(), fp);
        if let Some(k) = first_idx_where(parts.deep_view(), fp) {
            assert(fp(parts.deep_view()[k]));
        }
    }
    let whole = sub_parts(parts, 0, n);
    proof {
        assert(whole.deep_view() =~= parts.deep_view());
    }
    ParsedPath::Normal(whole)
}

/// The display string of a tag: `name` alone, or `name = value`.
pub open spec fn spec_format_tag(t: TagV) -> Seq<char> {
    match t.value {
        Some(v) => t.name + seq![' ', '=', ' '] + v,
        None => t.name,
    }
}

/// Render a tag's display string, deciding [`spec_format_tag`].
pub fn format_tag(t: &Tag) -> (r: String)
    ensures
        r@ == spec_format_tag(t@),
{
    match &t.value {
        Some(v) => {
            let mut s = t.name.clone();
            s.append(" = ");
            s.append(v.as_str());
            proof {
                reveal_strlit(" = ");
                assert(" = "@ =~= seq![' ', '=', ' ']);
                assert(s@ =~= t@.name + seq![' ', '=', ' '] + v@);
            }
            s
        },
        None => t.name.clone(),
    }
}

/// The rendered name of a point: `<name>.<id>`.
pub open spec fn spec_point_name(p: PointV) -> Seq<char> {
    p.name + seq!['.'] + int_string(p.id)
}

/// Render a point's name, deciding [`spec_point_name`].
pub fn point_full_name(p: &Point) -> (r: String)
    ensures
        r@ == spec_point_name(p@),
{
    let mut s = p.name.clone();
    s.append(".");
    let digits = i32_to_string(p.id);
    s.append(digits.as_str());
    proof {
        reveal_strlit(".");
        assert("."@ =~= seq!['.']);
        assert(s@ =~= p@.name + seq!['.'] + int_string(p@.id));
    }
    s
}

/// The id encoded in a component: the text after its final `.` (all of it
/// when there is no `.`), read as an `i32`.
pub open spec fn spec_name_id(comp: Seq<char>) -> Option<int> {
    spec_parse_int(suffix_after_last(comp, '.'), i32::MIN as int, i32::MAX as int)
}

/// The id encoded in the last component of a path, if any.
pub open spec fn spec_path_id(path: Seq<Seq<char>>) -> Option<int> {
    if path.len() == 0 {
        None
    } else {
        spec_name_id(path.last())
    }
}

/// Decode a component's id, deciding [`spec_name_id`].
pub fn name_id(comp: &String) -> (r: Option<i32>)
    ensures
        match r {
            Some(x) => spec_name_id(comp@) == Some(x as int),
            None => spec_name_id(comp@) is None,
        },
{
    let cs = chars_of(comp.as_str());
    let suffix = after_last_dot(&cs);
    parse_i32(&suffix)
}

/// Decode the last component of a path, deciding [`spec_path_id`].
pub fn path_id(path: &Vec<String>) -> (r: Option<i32>)
    ensures
        match r {
            Some(x) => spec_path_id(path.deep_view()) == Some(x as int),
            None => spec_path_id(path.deep_view()) is None,
        },
{
    let n = path.len();
    if n == 0 {
        return None;
    }
    proof {
        assert(path.deep_view().last() == path@[n - 1]@);
    }
    name_id(&path[n - 1])
}

/// Rendering a point's name and decoding it gives its id back.
pub proof fn lemma_point_name_id(p: PointV)
    requires
        i32::MIN <= p.id <= i32::MAX,
    ensures
        spec_name_id(spec_point_name(p)) == Some(p.id),
{
    let digits = int_string(p.id);
    let s = spec_point_name(p);
    // no character of the rendered id is a dot
    if p.id >= 0 {
        lemma_dec_string_props(p.id);
        assert(forall|j: int| 0 <= j < digits.len() ==> #[trigger] digits[j] != '.') by {
            assert(forall|j: int|
                0 <= j < digits.len() ==> crate::text::is_digit_char(#[trigger] digits[j]));
        }
    } else {
        lemma_dec_string_props(-p.id);
        assert(digits == seq!['-'] + crate::text::dec_string(-p.id));
        assert(forall|j: int| 0 <= j < digits.len() ==> #[trigger] digits[j] != '.') by {
            assert(forall|j: int|
                1 <= j < digits.len() ==> crate::text::is_digit_char(#[trigger] digits[j]));
        }
    }
    assert(s[p.name.len() as int] == '.');
    assert(forall|j: int|
        p.name.len() < j < s.len() ==> #[trigger] s[j] == digits[j - p.name.len() - 1]);
    lemma_last_index_of_unique(s, '.', p.name.len() as int);
    assert(suffix_after_last(s, '.') =~= digits);
    lemma_int_string_parse(p.id, i32::MIN as int, i32::MAX as int);
}

// ---------------------------------------------------------------------------
// Joining with `/` and byte sizes
// ---------------------------------------------------------------------------

/// Components joined by `/`, with no leading or trailing separator.
pub open spec fn spec_join_slash(parts: Seq<Seq<char>>) -> Seq<char>
    decreases parts.len(),
{
    if parts.len() == 0 {
        Seq::empty()
    } else if parts.len() == 1 {
        parts[0]
    } else {
        spec_join_slash(parts.drop_last()) + seq!['/'] + parts.last()
    }
}

/// Join components with `/`, deciding [`spec_join_slash`].
#[verifier::loop_isolation(false)]
pub fn join_slash(parts: &Vec<String>) -> (r: String)
    ensures
        r@ == spec_join_slash(parts.deep_view()),
{
    let mut s = String::new();
    let n = parts.len();
    for i in 0..n
        invariant
            s@ == spec_join_slash(parts.deep_view().take(i as int)),
    {
        if i > 0 {
            s.append("/");
        }
        s.append(parts[i].as_str());
        proof {
            reveal_strlit("/");
            assert("/"@ =~= seq!['/']);
            let t1 = parts.deep_view().take(i + 1);
            assert(t1.drop_last() =~= parts.deep_view().take(i as int));
            assert(t1.last() == parts@[i as int]@);
            if i == 0 {
                assert(t1.len() == 1);
                assert(s@ =~= t1[0]);
            } else {
                assert(s@ =~= spec_join_slash(t1.drop_last()) + seq!['/'] + t1.last());
            }
        }
    }
    proof {
        assert(parts.deep_view().take(n as int) =~= parts.deep_view());
    }
    s
}

/// UTF-8 encoding distributes over concatenation.
pub proof fn lemma_encode_utf8_concat(a: Seq<char>, b: Seq<char>)
    ensures
        encode_utf8(a + b) == encode_utf8(a) + encode_utf8(b),
    decreases a.len(),
{
    if a.len() == 0 {
        assert(a + b =~= b);
        assert(encode_utf8(a) =~= Seq::<u8>::empty());
        assert(encode_utf8(a) + encode_utf8(b) =~= encode_utf8(b));
    } else {
        assert((a + b).drop_first() =~= a.drop_first() + b);
        assert((a + b)[0] == a[0]);
        lemma_encode_utf8_concat(a.drop_first(), b);
        assert(encode_utf8(a + b) =~= encode_utf8(a) + encode_utf8(b));
    }
}

/// The byte lengths of all components, summed.
pub open spec fn byte_len_sum(parts: Seq<Seq<char>>) -> int
    decreases parts.len(),
{
    if parts.len() == 0 {
        0
    } else {
        byte_len_sum(parts.drop_last()) + encode_utf8(parts.last()).len()
    }
}

/// The byte length of the `/`-joined components: their byte lengths plus
/// one separator byte between each neighbouring pair.
pub proof fn lemma_join_slash_bytes(parts: Seq<Seq<char>>)
    requires
        parts.len() >= 1,
    ensures
        encode_utf8(spec_join_slash(parts)).len() == byte_len_sum(parts) + parts.len() - 1,
    decreases parts.len(),
{
    if parts.len() == 1 {
        assert(byte_len_sum(parts) == byte_len_sum(parts.drop_last()) + encode_utf8(
            parts.last(),
        ).len());
        assert(parts.drop_last().len() == 0);
        assert(parts[0] == parts.last());
    } else {
        lemma_join_slash_bytes(parts.drop_last());
        lemma_encode_utf8_concat(spec_join_slash(parts.drop_last()) + seq!['/'], parts.last());
        lemma_encode_utf8_concat(spec_join_slash(parts.drop_last()), seq!['/']);
        assert(encode_utf8(seq!['/']).len() == 1) by {
            assert(seq!['/'].drop_first() =~= Seq::<char>::empty());
            assert(encode_utf8(seq!['/']) =~= vstd::utf8::encode_scalar('/' as u32) + encode_utf8(
                Seq::<char>::empty(),
            ));
            assert(vstd::utf8::encode_scalar('/' as u32).len() == 1);
        }
    }
}

/// A sum of byte lengths is never negative.
pub proof fn lemma_byte_len_sum_nonneg(parts: Seq<Seq<char>>)
    ensures
        byte_len_sum(parts) >= 0,
    decreases parts.len(),
{
    if parts.len() > 0 {
        lemma_byte_len_sum_nonneg(parts.drop_last());
    }
}

/// The size of the `@flat-info` file for a filter path: the byte length of
/// the `/`-joined components, clipped to `u64`.
pub open spec fn spec_flat_info_size(filter: Seq<Seq<char>>) -> int {
    let full = if filter.len() == 0 {
        0int
    } else {
        byte_len_sum(filter) + filter.len() - 1
    };
    if full > u64::MAX as int {
        u64::MAX as int
    } else {
        full
    }
}

/// Compute the `@flat-info` size, deciding [`spec_flat_info_size`].
#[verifier::loop_isolation(false)]
pub fn flat_info_size(filter: &Vec<String>) -> (r: u64)
    ensures
        r as int == spec_flat_info_size(filter.deep_view()),
{
    let n = filter.len();
    let mut acc: u128 = 0;
    for i in 0..n
        invariant
            acc == byte_len_sum(filter.deep_view().take(i as int)) + i,
            acc <= i * 0x1_0000_0000_0000_0000,
    {
        let l = filter[i].as_str().as_bytes().len();
        proof {
            let t1 = filter.deep_view().take(i + 1);
            assert(t1.drop_last() =~= filter.deep_view().take(i as int));
            assert(t1.last() == filter@[i as int]@);
            assert(l as int == encode_utf8(filter@[i as int]@).len());
            assert((i + 1) * 0x1_0000_0000_0000_0000 == i * 0x1_0000_0000_0000_0000
                + 0x1_0000_0000_0000_0000) by (nonlinear_arith);
        }
        acc = acc + (l as u128) + 1;
    }
    proof {
        assert(filter.deep_view().take(n as int) =~= filter.deep_view());
    }
    proof {
        lemma_byte_len_sum_nonneg(filter.deep_view());
    }
    if acc == 0 {
        assert(filter.deep_view().len() == 0);
        0
    } else {
        let full = acc - 1;
        proof {
            assert(filter.deep_view().len() > 0) by {
                if filter.deep_view().len() == 0 {
                    assert(byte_len_sum(filter.deep_view()) == 0);
                }
            }
        }
        if full > 0xffff_ffff_ffff_ffffu128 {
            u64::MAX
        } else {
            full as u64
        }
    }
}

} // verus!
