//! The tag-expression grammar.
//!
//! A path component that is not a reserved token is a *tag expression*: a
//! list of disjuncts separated by the literal infix ` or `.  Each disjunct
//! either compares a name against a value (`name < v`, `name > v`,
//! `name = v`, `name != v`, with white space around the operator permitted
//! and stripped), or, when no comparison can be read, names a tag literally.
//! The name of a comparison is the first run of word characters (ASCII
//! letters, digits and `_` — a deliberate restriction) followed, after
//! optional white space, by an operator; the value is everything after the
//! operator, less leading white space.

use vstd::prelude::*;

use crate::models::{Tag, TagV};
use crate::text::{
    chars_equal, chars_of, count_while, digit_val, is_digit_char, is_space_char, is_word,
    is_word_char, lemma_count_while, lemma_count_while_unique, parse_i64, space_pred,
    spec_parse_int, split_chars, split_on, subvec,
};

verus! {

/// A comparison operator of the grammar.
#[derive(Clone, Copy, PartialEq, Eq, Structural)]
pub enum TagOp {
    Lt,
    Gt,
    Eq,
    Ne,
}

/// Mathematical value of a parsed disjunct.
pub ghost enum DisjunctV {
    /// No comparison could be read: the whole text names a tag.
    Bare(Seq<char>),
    /// `name OP value`.
    Cmp(Seq<char>, TagOp, Seq<char>),
}

/// A parsed disjunct.
pub enum Disjunct {
    Bare(Vec<char>),
    Cmp(Vec<char>, TagOp, Vec<char>),
}

impl View for Disjunct {
    type V = DisjunctV;

    open spec fn view(&self) -> DisjunctV {
        match self {
            Disjunct::Bare(n) => DisjunctV::Bare(n@),
            Disjunct::Cmp(n, op, v) => DisjunctV::Cmp(n@, *op, v@),
        }
    }
}

/// The word-character predicate, as a single spec value.
pub open spec fn word_pred() -> spec_fn(char) -> bool {
    |c: char| is_word_char(c)
}

/// The separator between disjuncts.
pub open spec fn or_sep() -> Seq<char> {
    seq![' ', 'o', 'r', ' ']
}

/// The comparison operator read at position `k`, with the number of
/// characters it takes.
pub open spec fn op_at(s: Seq<char>, k: int) -> Option<(TagOp, int)> {
    if k < s.len() && s[k] == '<' {
        Some((TagOp::Lt, 1))
    } else if k < s.len() && s[k] == '>' {
        Some((TagOp::Gt, 1))
    } else if k < s.len() && s[k] == '=' {
        Some((TagOp::Eq, 1))
    } else if k + 1 < s.len() && s[k] == '!' && s[k + 1] == '=' {
        Some((TagOp::Ne, 2))
    } else {
        None
    }
}

/// The comparison read from the word run starting at `i`, if the run is
/// followed, after optional white space, by an operator and a non-empty
/// remainder.  The value drops the white space after the operator, except
/// that a remainder of white space alone keeps its last character.
pub open spec fn cmp_at_run(s: Seq<char>, i: int) -> Option<(Seq<char>, TagOp, Seq<char>)> {
    let e = i + count_while(s.skip(i), word_pred());
    let k = e + count_while(s.skip(e), space_pred());
    match op_at(s, k) {
        None => None,
        Some((op, w)) => {
            let rest = s.skip(k + w);
            if rest.len() == 0 {
                None
            } else {
                let sp = count_while(rest, space_pred());
                let v = if sp < rest.len() {
                    rest.skip(sp)
                } else {
                    rest.skip(rest.len() - 1)
                };
                Some((s.subrange(i, e), op, v))
            }
        },
    }
}

/// Scan from position `i` for the first word run that reads as a
/// comparison.
pub open spec fn scan_cmp(s: Seq<char>, i: int) -> Option<(Seq<char>, TagOp, Seq<char>)>
    recommends
        0 <= i,
    decreases s.len() - i,
    when 0 <= i
    via scan_cmp_dec
{
    if i >= s.len() {
        None
    } else if !is_word_char(s[i]) {
        scan_cmp(s, i + 1)
    } else {
        match cmp_at_run(s, i) {
            Some(c) => Some(c),
            None => scan_cmp(s, i + count_while(s.skip(i), word_pred())),
        }
    }
}

#[via_fn]
proof fn scan_cmp_dec(s: Seq<char>, i: int) {
    if 0 <= i < s.len() && is_word_char(s[i]) {
        lemma_count_while(s.skip(i), word_pred());
        assert(s.skip(i)[0] == s[i]);
        assert(count_while(s.skip(i), word_pred()) >= 1);
    }
}

/// What a disjunct means.
pub open spec fn spec_parse_disjunct(s: Seq<char>) -> DisjunctV {
    match scan_cmp(s, 0) {
        None => DisjunctV::Bare(s),
        Some((n, op, v)) => DisjunctV::Cmp(n, op, v),
    }
}

/// Whether a tag satisfies a disjunct.  A numeric value compares against
/// `sort_value`; a non-numeric value compares against `value`; ordering
/// operators require a numeric value; a bare disjunct matches on the name
/// alone.
pub open spec fn disjunct_matches(d: DisjunctV, t: TagV) -> bool {
    match d {
        DisjunctV::Bare(name) => t.name == name,
        DisjunctV::Cmp(name, op, value) => t.name == name && match spec_parse_int(
            value,
            i64::MIN as int,
            i64::MAX as int,
        ) {
            Some(x) => match op {
                TagOp::Lt => match t.sort_value {
                    Some(sv) => sv < x,
                    None => false,
                },
                TagOp::Gt => match t.sort_value {
                    Some(sv) => sv > x,
                    None => false,
                },
                TagOp::Eq => t.sort_value == Some(x),
                TagOp::Ne => match t.sort_value {
                    Some(sv) => sv != x,
                    None => false,
                },
            },
            None => match op {
                TagOp::Eq => t.value == Some(value),
                TagOp::Ne => match t.value {
                    Some(v) => v != value,
                    None => false,
                },
                TagOp::Lt => false,
                TagOp::Gt => false,
            },
        },
    }
}

/// Whether a tag satisfies a whole tag expression: some disjunct matches.
pub open spec fn tag_matches_part(part: Seq<char>, t: TagV) -> bool {
    exists|k: int|
        0 <= k < split_on(part, or_sep()).len() && disjunct_matches(
            spec_parse_disjunct(split_on(part, or_sep())[k]),
            t,
        )
}

/// The disjunct separator ` or ` as a vector.
pub fn or_sep_vec() -> (r: Vec<char>)
    ensures
        r@ == or_sep(),
{
    let mut r: Vec<char> = Vec::new();
    r.push(' ');
    r.push('o');
    r.push('r');
    r.push(' ');
    assert(r@ =~= or_sep());
    r
}

/// Executable parse of one disjunct, deciding [`spec_parse_disjunct`].
pub fn parse_disjunct(s: &Vec<char>) -> (r: Disjunct)
    ensures
        r@ == spec_parse_disjunct(s@),
{
    let n = s.len();
    let mut i: usize = 0;
    loop
        invariant
            n == s@.len(),
            0 <= i <= n,
            scan_cmp(s@, 0) == scan_cmp(s@, i as int),
        decreases n - i,
    {
        if i == n {
            let whole = subvec(s, 0, n);
            assert(whole@ =~= s@);
            return Disjunct::Bare(whole);
        }
        if !is_word(s[i]) {
            i = i + 1;
            continue;
        }
        // end of the word run
        let mut e: usize = i;
        while e < n && is_word(s[e])
            invariant
                n == s@.len(),
                i <= e <= n,
                forall|j: int| i <= j < e ==> word_pred()(#[trigger] s@[j]),
            decreases n - e,
        {
            e = e + 1;
        }
        proof {
            assert forall|j: int| 0 <= j < e - i implies word_pred()(
                #[trigger] s@.skip(i as int)[j],
            ) by {
                assert(s@.skip(i as int)[j] == s@[i + j]);
            }
            if e < n {
                assert(s@.skip(i as int)[e - i] == s@[e as int]);
            }
            lemma_count_while_unique(s@.skip(i as int), word_pred(), e - i);
        }
        // white space after the run
        let mut k: usize = e;
        while k < n && crate::text::is_space(s[k])
            invariant
                n == s@.len(),
                e <= k <= n,
                forall|j: int| e <= j < k ==> space_pred()(#[trigger] s@[j]),
            decreases n - k,
        {
            k = k + 1;
        }
        proof {
            assert forall|j: int| 0 <= j < k - e implies space_pred()(
                #[trigger] s@.skip(e as int)[j],
            ) by {
                assert(s@.skip(e as int)[j] == s@[e + j]);
            }
            if k < n {
                assert(s@.skip(e as int)[k - e] == s@[k as int]);
            }
            lemma_count_while_unique(s@.skip(e as int), space_pred(), k - e);
        }
        // operator
        let op_w: Option<(TagOp, usize)> = if k < n && s[k] == '<' {
            Some((TagOp::Lt, 1))
        } else if k < n && s[k] == '>' {
            Some((TagOp::Gt, 1))
        } else if k < n && s[k] == '=' {
            Some((TagOp::Eq, 1))
        } else if k < n && s[k] == '!' && k + 1 < n && s[k + 1] == '=' {
            Some((TagOp::Ne, 2))
        } else {
            None
        };
        match op_w {
            None => {
                assert(op_at(s@, k as int) is None);
                assert(cmp_at_run(s@, i as int) is None);
                i = e;
            },
            Some((op, w)) => {
                assert(op_at(s@, k as int) == Some((op, w as int)));
                if k + w == n {
                    // empty remainder: this run reads as no comparison
                    assert(s@.skip(k + w).len() == 0);
                    assert(cmp_at_run(s@, i as int) is None);
                    i = e;
                } else {
                    let ghost rest = s@.skip(k + w as int);
                    // white space after the operator
                    let mut p: usize = k + w;
                    while p < n && crate::text::is_space(s[p])
                        invariant
                            n == s@.len(),
                            k + w <= p <= n,
                            forall|j: int| k + w <= j < p ==> space_pred()(#[trigger] s@[j]),
                        decreases n - p,
                    {
                        p = p + 1;
                    }
                    proof {
                        assert forall|j: int| 0 <= j < p - k - w implies space_pred()(
                            #[trigger] rest[j],
                        ) by {
                            assert(rest[j] == s@[k + w + j]);
                        }
                        if p < n {
                            assert(rest[p - k - w] == s@[p as int]);
                        }
                        lemma_count_while_unique(rest, space_pred(), p - k - w as int);
                    }
                    let start: usize = if p == n {
                        n - 1
                    } else {
                        p
                    };
                    let name = subvec(s, i, e);
                    let value = subvec(s, start, n);
                    proof {
                        assert(value@ =~= rest.skip(start - k - w as int));
                        if p == n {
                            assert(count_while(rest, space_pred()) == rest.len());
                        }
                    }
                    assert(cmp_at_run(s@, i as int) == Some((name@, op, value@)));
                    return Disjunct::Cmp(name, op, value);
                }
            },
        }
    }
}

/// Whether `tag` satisfies one parsed disjunct.
pub fn disjunct_matches_tag(d: &Disjunct, tag: &Tag) -> (r: bool)
    ensures
        r == disjunct_matches(d@, tag@),
{
    match d {
        Disjunct::Bare(name) => {
            let tn = chars_of(tag.name.as_str());
            chars_equal(&tn, name)
        },
        Disjunct::Cmp(name, op, value) => {
            let tn = chars_of(tag.name.as_str());
            if !chars_equal(&tn, name) {
                return false;
            }
            match parse_i64(value) {
                Some(x) => {
                    match (op, &tag.sort_value) {
                        (TagOp::Lt, Some(sv)) => *sv < x,
                        (TagOp::Gt, Some(sv)) => *sv > x,
                        (TagOp::Eq, Some(sv)) => *sv == x,
                        (TagOp::Ne, Some(sv)) => *sv != x,
                        _ => false,
                    }
                },
                None => {
                    match (op, &tag.value) {
                        (TagOp::Eq, Some(v)) => {
                            let tv = chars_of(v.as_str());
                            chars_equal(&tv, value)
                        },
                        (TagOp::Ne, Some(v)) => {
                            let tv = chars_of(v.as_str());
                            !chars_equal(&tv, value)
                        },
                        _ => false,
                    }
                },
            }
        },
    }
}

/// Whether `tag` satisfies the tag expression `part`, deciding
/// [`tag_matches_part`].
pub fn tag_matches_part_exec(part: &Vec<char>, tag: &Tag) -> (r: bool)
    ensures
        r == tag_matches_part(part@, tag@),
{
    let sep = or_sep_vec();
    let pieces = split_chars(part, &sep);
    let n = pieces.len();
    proof {
        assert(pieces.deep_view().len() == n);
    }
    for k in 0..n
        invariant
            n == pieces@.len(),
            pieces.deep_view() == split_on(part@, or_sep()),
            forall|j: int|
                0 <= j < k ==> !disjunct_matches(
                    spec_parse_disjunct(split_on(part@, or_sep())[j]),
                    tag@,
                ),
    {
        let d = parse_disjunct(&pieces[k]);
        proof {
            assert(pieces@[k as int]@ == pieces.deep_view()[k as int]);
        }
        if disjunct_matches_tag(&d, tag) {
            assert(disjunct_matches(spec_parse_disjunct(split_on(part@, or_sep())[k as int]), tag@));
            return true;
        }
    }
    false
}

} // verus!
