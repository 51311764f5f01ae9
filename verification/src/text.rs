//! Character-sequence utilities: character classes, lexicographic order,
//! searching and splitting, trimming, and decimal integer parsing and
//! formatting.  Everything here is specified over `Seq<char>`.

use vstd::prelude::*;

verus! {

// ---------------------------------------------------------------------------
// Character classes
// ---------------------------------------------------------------------------

/// Unicode white space: the set that `char::is_whitespace` recognises.
pub open spec fn is_space_char(c: char) -> bool {
    let u = c as int;
    ||| (0x9 <= u && u <= 0xd)
    ||| u == 0x20
    ||| u == 0x85
    ||| u == 0xa0
    ||| u == 0x1680
    ||| (0x2000 <= u && u <= 0x200a)
    ||| u == 0x2028
    ||| u == 0x2029
    ||| u == 0x202f
    ||| u == 0x205f
    ||| u == 0x3000
}

/// Executable check for [`is_space_char`].
pub fn is_space(c: char) -> (r: bool)
    ensures
        r == is_space_char(c),
{
    let u = c as u32;
    (0x9 <= u && u <= 0xd) || u == 0x20 || u == 0x85 || u == 0xa0 || u == 0x1680 || (0x2000 <= u
        && u <= 0x200a) || u == 0x2028 || u == 0x2029 || u == 0x202f || u == 0x205f || u == 0x3000
}

/// Word characters of a tag-expression name: ASCII letters, digits and
/// `_`, deliberately nothing beyond ASCII.  A comparison's name is the
/// first run of these characters, so a name written with other letters is
/// read as a bare tag rather than a comparison.
pub open spec fn is_word_char(c: char) -> bool {
    let u = c as int;
    ||| (0x30 <= u && u <= 0x39)
    ||| (0x41 <= u && u <= 0x5a)
    ||| (0x61 <= u && u <= 0x7a)
    ||| u == 0x5f
}

/// Executable check for [`is_word_char`].
pub fn is_word(c: char) -> (r: bool)
    ensures
        r == is_word_char(c),
{
    let u = c as u32;
    (0x30 <= u && u <= 0x39) || (0x41 <= u && u <= 0x5a) || (0x61 <= u && u <= 0x7a) || u == 0x5f
}

/// ASCII decimal digit.
pub open spec fn is_digit_char(c: char) -> bool {
    0x30 <= c as int && c as int <= 0x39
}

/// Numeric value of a decimal digit.
pub open spec fn digit_val(c: char) -> int {
    c as int - 0x30
}

// ---------------------------------------------------------------------------
// Conversions between strings and character vectors
// ---------------------------------------------------------------------------

/// The characters of `s`, in order.
pub fn chars_of(s: &str) -> (v: Vec<char>)
    ensures
        v@ == s@,
{
    let n = s.unicode_len();
    let mut v: Vec<char> = Vec::new();
    for i in 0..n
        invariant
            n == s@.len(),
            v@ =~= s@.take(i as int),
    {
        v.push(s.get_char(i));
        assert(v@ =~= s@.take(i + 1));
    }
    assert(v@ =~= s@);
    v
}

/// Relies on `String::push`: appends one character to the string.
#[verifier::external_body]
fn push_char(s: &mut String, c: char)
    ensures
        final(s)@ == old(s)@.push(c),
{
    s.push(c);
}

/// A `String` holding exactly the characters of `v`.
pub fn string_of(v: &Vec<char>) -> (s: String)
    ensures
        s@ == v@,
{
    let mut s = String::new();
    let n = v.len();
    for i in 0..n
        invariant
            n == v@.len(),
            s@ =~= v@.take(i as int),
    {
        push_char(&mut s, v[i]);
        assert(s@ =~= v@.take(i + 1));
    }
    assert(s@ =~= v@);
    s
}

/// Equality of two character vectors.
pub fn chars_equal(a: &Vec<char>, b: &Vec<char>) -> (r: bool)
    ensures
        r == (a@ == b@),
{
    if a.len() != b.len() {
        return false;
    }
    let n = a.len();
    for i in 0..n
        invariant
            n == a@.len(),
            n == b@.len(),
            forall|j: int| 0 <= j < i ==> a@[j] == b@[j],
    {
        if a[i] != b[i] {
            return false;
        }
    }
    assert(a@ =~= b@);
    true
}

// ---------------------------------------------------------------------------
// Lexicographic order on character sequences
// ---------------------------------------------------------------------------

/// `a` is lexicographically at or before `b`, comparing scalar values
/// position by position.  This is the order in which `str` sorts.
pub open spec fn lex_le(a: Seq<char>, b: Seq<char>) -> bool
    decreases a.len(),
{
    if a.len() == 0 {
        true
    } else if b.len() == 0 {
        false
    } else if (a[0] as int) < (b[0] as int) {
        true
    } else if (a[0] as int) > (b[0] as int) {
        false
    } else {
        lex_le(a.drop_first(), b.drop_first())
    }
}

/// The order is total.
pub proof fn lemma_lex_le_total(a: Seq<char>, b: Seq<char>)
    ensures
        lex_le(a, b) || lex_le(b, a),
    decreases a.len(),
{
    if a.len() != 0 && b.len() != 0 && a[0] == b[0] {
        lemma_lex_le_total(a.drop_first(), b.drop_first());
    }
}

/// The order is transitive.
pub proof fn lemma_lex_le_trans(a: Seq<char>, b: Seq<char>, c: Seq<char>)
    requires
        lex_le(a, b),
        lex_le(b, c),
    ensures
        lex_le(a, c),
    decreases a.len(),
{
    if a.len() == 0 {
    } else {
        assert(b.len() != 0);
        assert(c.len() != 0);
        if (a[0] as int) == (b[0] as int) && (b[0] as int) == (c[0] as int) {
            assert(a[0] == b[0] && b[0] == c[0]);
            assert(lex_le(a.drop_first(), b.drop_first()));
            assert(lex_le(b.drop_first(), c.drop_first()));
            lemma_lex_le_trans(a.drop_first(), b.drop_first(), c.drop_first());
            assert(lex_le(a, c));
        } else {
            assert((a[0] as int) <= (b[0] as int));
            assert((b[0] as int) <= (c[0] as int));
            assert((a[0] as int) < (c[0] as int));
        }
    }
}

/// Strict scalar-value comparison of two characters.
pub fn char_lt(c: char, d: char) -> (r: bool)
    ensures
        r == ((c as int) < (d as int)),
{
    (c as u32) < (d as u32)
}

/// Executable comparison deciding [`lex_le`].
pub fn chars_le(a: &Vec<char>, b: &Vec<char>) -> (r: bool)
    ensures
        r == lex_le(a@, b@),
{
    let mut i: usize = 0;
    let na = a.len();
    let nb = b.len();
    assert(a@.skip(0) =~= a@);
    assert(b@.skip(0) =~= b@);
    loop
        invariant
            na == a@.len(),
            nb == b@.len(),
            i <= na,
            i <= nb,
            lex_le(a@, b@) == lex_le(a@.skip(i as int), b@.skip(i as int)),
        decreases na - i,
    {
        if i == na {
            return true;
        }
        if i == nb {
            assert(!lex_le(a@.skip(i as int), b@.skip(i as int)));
            return false;
        }
        let ca = a[i];
        let cb = b[i];
        assert(a@.skip(i as int)[0] == a@[i as int]);
        assert(b@.skip(i as int)[0] == b@[i as int]);
        if ca == cb {
            assert(a@.skip(i as int).drop_first() =~= a@.skip(i + 1));
            assert(b@.skip(i as int).drop_first() =~= b@.skip(i + 1));
            i = i + 1;
        } else if char_lt(ca, cb) {
            return true;
        } else {
            assert(ca as int != cb as int);
            assert(!lex_le(a@.skip(i as int), b@.skip(i as int)));
            return false;
        }
    }
}


// ---------------------------------------------------------------------------
// Searching and splitting
// ---------------------------------------------------------------------------

/// `n` occurs in `h` at position `i`.
pub open spec fn match_at(h: Seq<char>, n: Seq<char>, i: int) -> bool {
    0 <= i && i + n.len() <= h.len() && h.subrange(i, i + n.len()) =~= n
}

/// Position of the leftmost occurrence of `n` in `h`, if any.
pub open spec fn first_match(h: Seq<char>, n: Seq<char>) -> Option<int>
    decreases h.len(),
{
    if h.len() < n.len() {
        None
    } else if h.subrange(0, n.len() as int) =~= n {
        Some(0)
    } else {
        match first_match(h.drop_first(), n) {
            Some(i) => Some(i + 1),
            None => None,
        }
    }
}

/// [`first_match`] finds an occurrence, and the leftmost one.
pub proof fn lemma_first_match(h: Seq<char>, n: Seq<char>)
    ensures
        match first_match(h, n) {
            Some(i) => match_at(h, n, i) && forall|j: int| 0 <= j < i ==> !match_at(h, n, j),
            None => forall|j: int| !match_at(h, n, j),
        },
    decreases h.len(),
{
    if h.len() < n.len() {
    } else if h.subrange(0, n.len() as int) =~= n {
    } else {
        lemma_first_match(h.drop_first(), n);
        match first_match(h.drop_first(), n) {
            Some(i) => {
                assert(match_at(h.drop_first(), n, i));
                assert(h.subrange(i + 1, i + 1 + n.len()) =~= h.drop_first().subrange(
                    i,
                    i + n.len(),
                ));
                assert(match_at(h, n, i + 1));
                assert forall|j: int| 0 <= j < i + 1 implies !match_at(h, n, j) by {
                    if j == 0 {
                        assert(!(h.subrange(0, n.len() as int) =~= n));
                    } else {
                        assert(!match_at(h.drop_first(), n, j - 1));
                        if j + n.len() <= h.len() {
                            assert(h.subrange(j, j + n.len()) =~= h.drop_first().subrange(
                                j - 1,
                                j - 1 + n.len(),
                            ));
                        }
                    }
                }
            },
            None => {
                assert forall|j: int| !(#[trigger] match_at(h, n, j)) by {
                    if 1 <= j && j + n.len() <= h.len() {
                        assert(!match_at(h.drop_first(), n, j - 1));
                        assert(h.subrange(j, j + n.len()) =~= h.drop_first().subrange(
                            j - 1,
                            j - 1 + n.len(),
                        ));
                    } else if j == 0 {
                        assert(!(h.subrange(0, n.len() as int) =~= n));
                    }
                }
            },
        }
    }
}

/// A position that matches, before which nothing matches, is the first match.
pub proof fn lemma_first_match_unique(h: Seq<char>, n: Seq<char>, i: int)
    requires
        match_at(h, n, i),
        forall|j: int| 0 <= j < i ==> !match_at(h, n, j),
    ensures
        first_match(h, n) == Some(i),
{
    lemma_first_match(h, n);
    match first_match(h, n) {
        Some(k) => {
            if k < i {
                assert(!match_at(h, n, k));
            } else if i < k {
                assert(!match_at(h, n, i));
            }
        },
        None => {
            assert(!match_at(h, n, i));
        },
    }
}

/// The slice `h[from..to]` as a fresh vector.
pub fn subvec(h: &Vec<char>, from: usize, to: usize) -> (r: Vec<char>)
    requires
        from <= to <= h@.len(),
    ensures
        r@ == h@.subrange(from as int, to as int),
{
    let mut r: Vec<char> = Vec::new();
    for i in from..to
        invariant
            from <= i <= to <= h@.len(),
            r@ =~= h@.subrange(from as int, i as int),
    {
        r.push(h[i]);
        assert(r@ =~= h@.subrange(from as int, i + 1));
    }
    assert(r@ =~= h@.subrange(from as int, to as int));
    r
}

/// Leftmost occurrence of `n` in `h`.
pub fn find_chars(h: &Vec<char>, n: &Vec<char>) -> (r: Option<usize>)
    ensures
        match r {
            Some(i) => first_match(h@, n@) == Some(i as int),
            None => first_match(h@, n@) is None,
        },
{
    let hl = h.len();
    let nl = n.len();
    if nl > hl {
        proof {
            lemma_first_match(h@, n@);
            if let Some(i) = first_match(h@, n@) {
                assert(match_at(h@, n@, i));
            }
        }
        return None;
    }
    let mut i: usize = 0;
    while i <= hl - nl
        invariant
            hl == h@.len(),
            nl == n@.len(),
            nl <= hl,
            i <= hl - nl + 1,
            forall|j: int| 0 <= j < i ==> !match_at(h@, n@, j),
        decreases hl - nl + 1 - i,
    {
        let piece = subvec(h, i, i + nl);
        if chars_equal(&piece, n) {
            proof {
                assert(match_at(h@, n@, i as int));
                lemma_first_match_unique(h@, n@, i as int);
            }
            return Some(i);
        }
        assert(!match_at(h@, n@, i as int));
        i = i + 1;
    }
    proof {
        lemma_first_match(h@, n@);
        if let Some(k) = first_match(h@, n@) {
            assert(match_at(h@, n@, k));
            assert(0 <= k && k + n@.len() <= h@.len());
            assert(!match_at(h@, n@, k));
        }
    }
    None
}

/// `h` split on every non-overlapping leftmost occurrence of `sep`.
pub open spec fn split_on(h: Seq<char>, sep: Seq<char>) -> Seq<Seq<char>>
    recommends
        sep.len() > 0,
    decreases h.len(),
    when sep.len() > 0
    via split_on_dec
{
    match first_match(h, sep) {
        None => seq![h],
        Some(i) => seq![h.subrange(0, i)] + split_on(
            h.subrange(i + sep.len(), h.len() as int),
            sep,
        ),
    }
}

#[via_fn]
proof fn split_on_dec(h: Seq<char>, sep: Seq<char>) {
    lemma_first_match(h, sep);
}

/// Executable splitting, deciding [`split_on`].
pub fn split_chars(h: &Vec<char>, sep: &Vec<char>) -> (r: Vec<Vec<char>>)
    requires
        sep@.len() > 0,
    ensures
        r.deep_view() == split_on(h@, sep@),
{
    let mut parts: Vec<Vec<char>> = Vec::new();
    let mut rest: Vec<char> = subvec(h, 0, h.len());
    assert(rest@ =~= h@);
    assert(parts.deep_view() + split_on(rest@, sep@) =~~= split_on(h@, sep@));
    loop
        invariant
            sep@.len() > 0,
            split_on(h@, sep@) == parts.deep_view() + split_on(rest@, sep@),
        decreases rest@.len(),
    {
        match find_chars(&rest, sep) {
            Some(i) => {
                proof {
                    lemma_first_match(rest@, sep@);
                }
                let piece = subvec(&rest, 0, i);
                let ghost old_parts = parts.deep_view();
                let ghost old_rest = rest@;
                parts.push(piece);
                let new_rest = subvec(&rest, i + sep.len(), rest.len());
                rest = new_rest;
                proof {
                    assert(parts.deep_view() =~~= old_parts.push(old_rest.subrange(0, i as int)));
                    assert(split_on(old_rest, sep@) == seq![old_rest.subrange(0, i as int)]
                        + split_on(rest@, sep@));
                    assert(split_on(h@, sep@) =~~= parts.deep_view() + split_on(rest@, sep@));
                }
            },
            None => {
                let ghost old_parts = parts.deep_view();
                let ghost last = rest@;
                parts.push(rest);
                proof {
                    assert(parts.deep_view() =~~= old_parts.push(last));
                    assert(split_on(h@, sep@) =~~= parts.deep_view());
                }
                return parts;
            },
        }
    }
}

// ---------------------------------------------------------------------------
// Trimming
// ---------------------------------------------------------------------------

/// Length of the longest prefix of `s` whose characters all satisfy `p`.
pub open spec fn count_while(s: Seq<char>, p: spec_fn(char) -> bool) -> int
    decreases s.len(),
{
    if s.len() == 0 || !p(s[0]) {
        0
    } else {
        1 + count_while(s.drop_first(), p)
    }
}

/// Length of the longest suffix of `s` whose characters all satisfy `p`.
pub open spec fn count_while_rev(s: Seq<char>, p: spec_fn(char) -> bool) -> int
    decreases s.len(),
{
    if s.len() == 0 || !p(s.last()) {
        0
    } else {
        1 + count_while_rev(s.drop_last(), p)
    }
}

pub proof fn lemma_count_while(s: Seq<char>, p: spec_fn(char) -> bool)
    ensures
        0 <= count_while(s, p) <= s.len(),
        forall|j: int| 0 <= j < count_while(s, p) ==> p(#[trigger] s[j]),
        count_while(s, p) < s.len() ==> !p(s[count_while(s, p)]),
    decreases s.len(),
{
    if s.len() == 0 || !p(s[0]) {
    } else {
        lemma_count_while(s.drop_first(), p);
        assert forall|j: int| 0 <= j < count_while(s, p) implies p(#[trigger] s[j]) by {
            if j > 0 {
                assert(s[j] == s.drop_first()[j - 1]);
            }
        }
        if count_while(s, p) < s.len() {
            assert(s[count_while(s, p)] == s.drop_first()[count_while(s.drop_first(), p)]);
        }
    }
}

pub proof fn lemma_count_while_unique(s: Seq<char>, p: spec_fn(char) -> bool, i: int)
    requires
        0 <= i <= s.len(),
        forall|j: int| 0 <= j < i ==> p(#[trigger] s[j]),
        i < s.len() ==> !p(s[i]),
    ensures
        count_while(s, p) == i,
{
    lemma_count_while(s, p);
    let c = count_while(s, p);
    if c < i {
        assert(p(s[c]));
    } else if i < c {
        assert(p(s[i]));
    }
}

pub proof fn lemma_count_while_rev(s: Seq<char>, p: spec_fn(char) -> bool)
    ensures
        0 <= count_while_rev(s, p) <= s.len(),
        forall|j: int| s.len() - count_while_rev(s, p) <= j < s.len() ==> p(#[trigger] s[j]),
        count_while_rev(s, p) < s.len() ==> !p(s[s.len() - count_while_rev(s, p) - 1]),
    decreases s.len(),
{
    if s.len() == 0 || !p(s.last()) {
    } else {
        lemma_count_while_rev(s.drop_last(), p);
        assert forall|j: int| s.len() - count_while_rev(s, p) <= j < s.len() implies p(
            #[trigger] s[j],
        ) by {
            if j < s.len() - 1 {
                assert(s[j] == s.drop_last()[j]);
            }
        }
        if count_while_rev(s, p) < s.len() {
            let k = s.len() - count_while_rev(s, p) - 1;
            assert(s[k] == s.drop_last()[k]);
        }
    }
}

pub proof fn lemma_count_while_rev_unique(s: Seq<char>, p: spec_fn(char) -> bool, t: int)
    requires
        0 <= t <= s.len(),
        forall|j: int| s.len() - t <= j < s.len() ==> p(#[trigger] s[j]),
        t < s.len() ==> !p(s[s.len() - t - 1]),
    ensures
        count_while_rev(s, p) == t,
{
    lemma_count_while_rev(s, p);
    let c = count_while_rev(s, p);
    if c < t {
        assert(p(s[s.len() - c - 1]));
    } else if t < c {
        assert(p(s[s.len() - t - 1]));
    }
}

/// The white-space predicate, as a single spec value.
pub open spec fn space_pred() -> spec_fn(char) -> bool {
    |c: char| is_space_char(c)
}

/// The NUL predicate, as a single spec value.
pub open spec fn nul_pred() -> spec_fn(char) -> bool {
    |c: char| c as int == 0
}

/// `s` with white space removed from both ends, as `str::trim` does.
pub open spec fn trim_spaces(s: Seq<char>) -> Seq<char> {
    let a = count_while(s, space_pred());
    if a == s.len() {
        Seq::empty()
    } else {
        s.subrange(a, s.len() - count_while_rev(s, space_pred()))
    }
}

/// `s` with NUL characters removed from both ends.
pub open spec fn trim_nuls(s: Seq<char>) -> Seq<char> {
    let a = count_while(s, nul_pred());
    if a == s.len() {
        Seq::empty()
    } else {
        s.subrange(a, s.len() - count_while_rev(s, nul_pred()))
    }
}

/// Executable trim deciding [`trim_spaces`].
pub fn trim_space_chars(v: &Vec<char>) -> (r: Vec<char>)
    ensures
        r@ == trim_spaces(v@),
{
    let n = v.len();
    let mut a: usize = 0;
    while a < n && is_space(v[a])
        invariant
            n == v@.len(),
            a <= n,
            forall|j: int| 0 <= j < a ==> space_pred()(#[trigger] v@[j]),
        decreases n - a,
    {
        a = a + 1;
    }
    proof {
        lemma_count_while_unique(v@, space_pred(), a as int);
    }
    if a == n {
        let r: Vec<char> = Vec::new();
        assert(r@ =~= trim_spaces(v@));
        return r;
    }
    let mut b: usize = n;
    while b > a && is_space(v[b - 1])
        invariant
            n == v@.len(),
            a <= b <= n,
            a < n,
            !space_pred()(v@[a as int]),
            forall|j: int| b <= j < n ==> space_pred()(#[trigger] v@[j]),
        decreases b,
    {
        b = b - 1;
    }
    proof {
        if b > a {
            lemma_count_while_rev_unique(v@, space_pred(), (n - b) as int);
        } else {
            assert(b == a);
            assert(!space_pred()(v@[a as int]));
            lemma_count_while_rev_unique(v@, space_pred(), (n - b) as int);
        }
    }
    subvec(v, a, b)
}

/// Executable check: scalar value zero.
pub fn is_nul(c: char) -> (r: bool)
    ensures
        r == (c as int == 0),
{
    (c as u32) == 0
}

/// Executable trim deciding [`trim_nuls`].
pub fn trim_nul_chars(v: &Vec<char>) -> (r: Vec<char>)
    ensures
        r@ == trim_nuls(v@),
{
    let n = v.len();
    let mut a: usize = 0;
    while a < n && is_nul(v[a])
        invariant
            n == v@.len(),
            a <= n,
            forall|j: int| 0 <= j < a ==> nul_pred()(#[trigger] v@[j]),
        decreases n - a,
    {
        a = a + 1;
    }
    proof {
        lemma_count_while_unique(v@, nul_pred(), a as int);
    }
    if a == n {
        let r: Vec<char> = Vec::new();
        assert(r@ =~= trim_nuls(v@));
        return r;
    }
    let mut b: usize = n;
    while b > a && is_nul(v[b - 1])
        invariant
            n == v@.len(),
            a <= b <= n,
            a < n,
            !nul_pred()(v@[a as int]),
            forall|j: int| b <= j < n ==> nul_pred()(#[trigger] v@[j]),
        decreases b,
    {
        b = b - 1;
    }
    proof {
        lemma_count_while_rev_unique(v@, nul_pred(), (n - b) as int);
    }
    subvec(v, a, b)
}



/// The non-white-space predicate, as a single spec value.
pub open spec fn nonspace_pred() -> spec_fn(char) -> bool {
    |c: char| !is_space_char(c)
}

/// The first white-space-separated word of `s`: the run of non-space
/// characters after the leading white space, if anything is left.
pub open spec fn spec_first_word(s: Seq<char>) -> Option<Seq<char>> {
    let a = count_while(s, space_pred());
    if a == s.len() {
        None
    } else {
        Some(s.subrange(a, a + count_while(s.skip(a), nonspace_pred())))
    }
}

/// Trimming is idempotent: a trimmed sequence has no NUL at either end.
pub proof fn lemma_trim_nuls_idempotent(s: Seq<char>)
    ensures
        trim_nuls(trim_nuls(s)) == trim_nuls(s),
{
    lemma_count_while(s, nul_pred());
    lemma_count_while_rev(s, nul_pred());
    let a = count_while(s, nul_pred());
    let t = trim_nuls(s);
    if a == s.len() {
        assert(t =~= Seq::<char>::empty());
        lemma_count_while_unique(t, nul_pred(), 0);
        assert(trim_nuls(t) =~= Seq::<char>::empty());
    } else {
        let b = count_while_rev(s, nul_pred());
        // the remainder starts and ends with a non-NUL character
        assert(a < s.len() - b) by {
            if a >= s.len() - b {
                assert(nul_pred()(s[a]));
            }
        }
        assert(t == s.subrange(a, s.len() - b));
        assert(t.len() > 0);
        assert(!nul_pred()(t[0])) by {
            assert(t[0] == s[a]);
        }
        assert(!nul_pred()(t[t.len() - 1])) by {
            assert(t[t.len() - 1] == s[s.len() - b - 1]);
            if b < s.len() {
                assert(!nul_pred()(s[s.len() - b - 1]));
            }
        }
        lemma_count_while_unique(t, nul_pred(), 0);
        lemma_count_while_rev_unique(t, nul_pred(), 0);
        assert(trim_nuls(t) =~= t);
    }
}

// ---------------------------------------------------------------------------
// Decimal integers
// ---------------------------------------------------------------------------

/// Every character of `s` is a decimal digit.
pub open spec fn all_digits(s: Seq<char>) -> bool {
    forall|i: int| 0 <= i < s.len() ==> is_digit_char(#[trigger] s[i])
}

/// The value of `s` read as a decimal numeral, most significant digit first.
pub open spec fn dec_val(s: Seq<char>) -> int
    decreases s.len(),
{
    if s.len() == 0 {
        0
    } else {
        dec_val(s.drop_last()) * 10 + digit_val(s.last())
    }
}

/// What `str::parse` for a signed integer type with range `[lo, hi]`
/// returns: an optional sign followed by one or more digits, rejected when
/// the value falls outside the range.
pub open spec fn spec_parse_int(s: Seq<char>, lo: int, hi: int) -> Option<int> {
    let signed = s.len() > 0 && (s[0] == '-' || s[0] == '+');
    let body = if signed {
        s.drop_first()
    } else {
        s
    };
    let neg = s.len() > 0 && s[0] == '-';
    if body.len() == 0 || !all_digits(body) {
        None
    } else {
        let v = if neg {
            -dec_val(body)
        } else {
            dec_val(body)
        };
        if lo <= v && v <= hi {
            Some(v)
        } else {
            None
        }
    }
}

pub proof fn lemma_dec_val_nonneg(s: Seq<char>)
    requires
        all_digits(s),
    ensures
        dec_val(s) >= 0,
    decreases s.len(),
{
    if s.len() > 0 {
        assert(forall|i: int|
            0 <= i < s.drop_last().len() ==> s.drop_last()[i] == #[trigger] s[i]);
        lemma_dec_val_nonneg(s.drop_last());
        assert(digit_val(s.last()) >= 0);
    }
}

/// Ten to the power `n`.
pub open spec fn pow10(n: nat) -> int
    decreases n,
{
    if n == 0 {
        1
    } else {
        10 * pow10((n - 1) as nat)
    }
}

pub proof fn lemma_pow10_pos(n: nat)
    ensures
        pow10(n) >= 1,
    decreases n,
{
    if n > 0 {
        lemma_pow10_pos((n - 1) as nat);
    }
}

/// Reading a concatenation: the prefix is scaled by ten to the suffix length.
pub proof fn lemma_dec_val_concat(a: Seq<char>, b: Seq<char>)
    ensures
        dec_val(a + b) == dec_val(a) * pow10(b.len()) + dec_val(b),
    decreases b.len(),
{
    if b.len() == 0 {
        assert(a + b =~= a);
        assert(pow10(0) == 1);
    } else {
        assert((a + b).drop_last() =~= a + b.drop_last());
        assert((a + b).last() == b.last());
        lemma_dec_val_concat(a, b.drop_last());
        assert(dec_val(a + b) == (dec_val(a) * pow10(b.drop_last().len()) + dec_val(b.drop_last()))
            * 10 + digit_val(b.last()));
        assert((dec_val(a) * pow10(b.drop_last().len())) * 10 == dec_val(a) * (pow10(
            b.drop_last().len(),
        ) * 10)) by (nonlinear_arith);
        assert(pow10(b.drop_last().len()) * 10 == pow10(b.len()));
    }
}

/// A digit as a character.
pub open spec fn digit_char(d: int) -> char {
    if d == 0 {
        '0'
    } else if d == 1 {
        '1'
    } else if d == 2 {
        '2'
    } else if d == 3 {
        '3'
    } else if d == 4 {
        '4'
    } else if d == 5 {
        '5'
    } else if d == 6 {
        '6'
    } else if d == 7 {
        '7'
    } else if d == 8 {
        '8'
    } else {
        '9'
    }
}

/// The decimal numeral of a non-negative integer, without leading zeros.
pub open spec fn dec_string(n: int) -> Seq<char>
    recommends
        n >= 0,
    decreases n,
    when n >= 0
{
    if n < 10 {
        seq![digit_char(n)]
    } else {
        dec_string(n / 10).push(digit_char(n % 10))
    }
}

/// The decimal numeral of an integer, with a leading `-` when negative.
pub open spec fn int_string(n: int) -> Seq<char> {
    if n < 0 {
        seq!['-'] + dec_string(-n)
    } else {
        dec_string(n)
    }
}

pub proof fn lemma_dec_string_props(n: int)
    requires
        n >= 0,
    ensures
        all_digits(dec_string(n)),
        dec_val(dec_string(n)) == n,
        dec_string(n).len() >= 1,
    decreases n,
{
    if n < 10 {
        let s = dec_string(n);
        assert(s.len() == 1);
        assert(s[0] == digit_char(n));
        assert(is_digit_char(digit_char(n)));
        assert(s.drop_last() =~= Seq::<char>::empty());
        assert(dec_val(Seq::<char>::empty()) == 0);
        assert(digit_val(digit_char(n)) == n);
        assert(dec_val(s) == dec_val(s.drop_last()) * 10 + digit_val(s.last()));
    } else {
        lemma_dec_string_props(n / 10);
        let q = dec_string(n / 10);
        let s = dec_string(n);
        assert(s == q.push(digit_char(n % 10)));
        assert(s.drop_last() =~= q);
        assert(s.last() == digit_char(n % 10));
        assert(is_digit_char(digit_char(n % 10)));
        assert(all_digits(s)) by {
            assert(forall|i: int| 0 <= i < q.len() ==> s[i] == #[trigger] q[i]);
        }
        assert(digit_val(digit_char(n % 10)) == n % 10);
        assert(dec_val(s) == (n / 10) * 10 + n % 10);
    }
}

/// Parsing the rendering of `n` gives `n` back.
pub proof fn lemma_int_string_parse(n: int, lo: int, hi: int)
    requires
        lo <= n <= hi,
    ensures
        spec_parse_int(int_string(n), lo, hi) == Some(n),
{
    if n >= 0 {
        lemma_dec_string_props(n);
        let s = dec_string(n);
        assert(is_digit_char(s[0]));
        assert(s[0] != '-' && s[0] != '+');
    } else {
        lemma_dec_string_props(-n);
        let s = seq!['-'] + dec_string(-n);
        assert(s[0] == '-');
        assert(s.drop_first() =~= dec_string(-n));
    }
}

/// Position of the last occurrence of `c` in `s`, if any.
pub open spec fn last_index_of(s: Seq<char>, c: char) -> Option<int>
    decreases s.len(),
{
    if s.len() == 0 {
        None
    } else if s.last() == c {
        Some(s.len() - 1)
    } else {
        last_index_of(s.drop_last(), c)
    }
}

/// What follows the last occurrence of `c` in `s`; all of `s` when `c` does
/// not occur.
pub open spec fn suffix_after_last(s: Seq<char>, c: char) -> Seq<char> {
    match last_index_of(s, c) {
        None => s,
        Some(i) => s.subrange(i + 1, s.len() as int),
    }
}

pub proof fn lemma_last_index_of(s: Seq<char>, c: char)
    ensures
        match last_index_of(s, c) {
            Some(i) => 0 <= i < s.len() && s[i] == c && forall|j: int|
                i < j < s.len() ==> s[j] != c,
            None => forall|j: int| 0 <= j < s.len() ==> s[j] != c,
        },
    decreases s.len(),
{
    if s.len() > 0 && s.last() != c {
        lemma_last_index_of(s.drop_last(), c);
        assert(forall|j: int| 0 <= j < s.len() - 1 ==> #[trigger] s[j] == s.drop_last()[j]);
    }
}

/// A last-occurrence position is unique.
pub proof fn lemma_last_index_of_unique(s: Seq<char>, c: char, i: int)
    requires
        0 <= i < s.len(),
        s[i] == c,
        forall|j: int| i < j < s.len() ==> s[j] != c,
    ensures
        last_index_of(s, c) == Some(i),
{
    lemma_last_index_of(s, c);
    match last_index_of(s, c) {
        Some(k) => {
            if k < i {
                assert(s[i] != c);
            } else if i < k {
                assert(s[k] != c);
            }
        },
        None => {
            assert(s[i] != c);
        },
    }
}

/// Executable: the characters after the last `.`, or all of them.
pub fn after_last_dot(v: &Vec<char>) -> (r: Vec<char>)
    ensures
        r@ == suffix_after_last(v@, '.'),
{
    let n = v.len();
    let mut b: usize = n;
    while b > 0 && v[b - 1] != '.'
        invariant
            n == v@.len(),
            b <= n,
            forall|j: int| b <= j < n ==> v@[j] != '.',
        decreases b,
    {
        b = b - 1;
    }
    if b == 0 {
        proof {
            lemma_last_index_of(v@, '.');
            if let Some(i) = last_index_of(v@, '.') {
                assert(v@[i] != '.');
            }
        }
        subvec(v, 0, n)
    } else {
        proof {
            lemma_last_index_of_unique(v@, '.', b - 1);
        }
        subvec(v, b, n)
    }
}



/// Executable classification of a decimal digit, with its value.
pub fn digit_of(c: char) -> (r: Option<u8>)
    ensures
        match r {
            Some(d) => is_digit_char(c) && d as int == digit_val(c),
            None => !is_digit_char(c),
        },
{
    let u = c as u32;
    if 48 <= u && u <= 57 {
        Some((u - 48) as u8)
    } else {
        None
    }
}

/// Executable decimal parse for `i64`, deciding [`spec_parse_int`] over the
/// range of that type.
pub fn parse_i64(v: &Vec<char>) -> (r: Option<i64>)
    ensures
        match r {
            Some(x) => spec_parse_int(v@, i64::MIN as int, i64::MAX as int) == Some(x as int),
            None => spec_parse_int(v@, i64::MIN as int, i64::MAX as int) is None,
        },
{
    let n = v.len();
    let mut idx: usize = 0;
    let mut neg = false;
    if n > 0 && (v[0] == '-' || v[0] == '+') {
        neg = v[0] == '-';
        idx = 1;
    }
    let ghost body = v@.skip(idx as int);
    proof {
        if idx == 1 {
            assert(body =~= v@.drop_first());
        } else {
            assert(body =~= v@);
        }
    }
    if idx == n {
        assert(body.len() == 0);
        return None;
    }
    let mut acc: i64 = 0;
    let mut i: usize = idx;
    proof {
        assert(v@.subrange(idx as int, idx as int) =~= Seq::<char>::empty());
    }
    while i < n
        invariant
            n == v@.len(),
            idx <= i <= n,
            idx < n,
            idx <= 1,
            body == v@.skip(idx as int),
            (idx == 1) == (n > 0 && (v@[0] == '-' || v@[0] == '+')),
            neg == (n > 0 && v@[0] == '-'),
            all_digits(v@.subrange(idx as int, i as int)),
            acc as int == -dec_val(v@.subrange(idx as int, i as int)),
            acc <= 0,
        decreases n - i,
    {
        let ghost prefix = v@.subrange(idx as int, i as int);
        let ghost rest = v@.subrange(i as int, n as int);
        proof {
            assert(body =~= prefix + rest);
        }
        let c = v[i];
        match digit_of(c) {
            None => {
                proof {
                    assert(body[i - idx] == v@[i as int]);
                    assert(!all_digits(body));
                }
                return None;
            },
            Some(d) => {
                proof {
                    lemma_dec_val_nonneg(prefix);
                }
                let acc10 = match acc.checked_mul(10) {
                    Some(x) => x,
                    None => {
                        proof {
                            overflow_means_out_of_range(v@, idx as int, i as int, neg, body);
                        }
                        return None;
                    },
                };
                let acc2 = match acc10.checked_sub(d as i64) {
                    Some(x) => x,
                    None => {
                        proof {
                            assert(dec_val(prefix) * 10 + digit_val(v@[i as int]) > 0x8000_0000_0000_0000) by {
                                assert(acc10 as int == -(dec_val(prefix) * 10));
                                assert(acc10 as int - d < i64::MIN as int);
                            }
                            overflow_means_out_of_range(v@, idx as int, i as int, neg, body);
                        }
                        return None;
                    },
                };
                acc = acc2;
                proof {
                    let prefix2 = v@.subrange(idx as int, i + 1);
                    assert(prefix2 =~= prefix.push(v@[i as int]));
                    assert(prefix2.drop_last() =~= prefix);
                    assert(dec_val(prefix2) == dec_val(prefix) * 10 + digit_val(v@[i as int]));
                    assert forall|j: int| 0 <= j < prefix2.len() implies is_digit_char(
                        #[trigger] prefix2[j],
                    ) by {
                        if j < prefix.len() {
                            assert(prefix2[j] == prefix[j]);
                        }
                    }
                }
                i = i + 1;
            },
        }
    }
    proof {
        assert(v@.subrange(idx as int, n as int) =~= body);
        lemma_dec_val_nonneg(body);
    }
    if neg {
        Some(acc)
    } else {
        if acc < -0x7fff_ffff_ffff_ffffi64 {
            proof {
                assert(dec_val(body) > i64::MAX as int);
            }
            None
        } else {
            Some(0 - acc)
        }
    }
}

/// When the accumulated prefix no longer fits, the whole numeral is out of
/// the `i64` range (or malformed), so parsing fails either way.
proof fn overflow_means_out_of_range(s: Seq<char>, idx: int, i: int, neg: bool, body: Seq<char>)
    requires
        0 <= idx <= i < s.len(),
        idx <= 1,
        body == s.skip(idx),
        (idx == 1) == (s.len() > 0 && (s[0] == '-' || s[0] == '+')),
        neg == (s.len() > 0 && s[0] == '-'),
        all_digits(s.subrange(idx, i)),
        is_digit_char(s[i]),
        dec_val(s.subrange(idx, i)) * 10 + digit_val(s[i]) > 0x8000_0000_0000_0000 || dec_val(
            s.subrange(idx, i),
        ) * 10 > 0x8000_0000_0000_0000,
    ensures
        spec_parse_int(s, i64::MIN as int, i64::MAX as int) is None,
{
    if !all_digits(body) {
    } else {
        let prefix = s.subrange(idx, i);
        let prefix2 = s.subrange(idx, i + 1);
        let rest = s.subrange(i + 1, s.len() as int);
        assert(prefix2 =~= prefix.push(s[i]));
        assert(prefix2.drop_last() =~= prefix);
        assert(dec_val(prefix2) == dec_val(prefix) * 10 + digit_val(s[i]));
        assert(body =~= prefix2 + rest);
        lemma_dec_val_concat(prefix2, rest);
        assert forall|j: int| 0 <= j < rest.len() implies is_digit_char(#[trigger] rest[j]) by {
            assert(rest[j] == body[i + 1 - idx + j]);
        }
        lemma_dec_val_nonneg(rest);
        lemma_pow10_pos(rest.len());
        lemma_dec_val_nonneg(prefix);
        assert(digit_val(s[i]) >= 0);
        assert(dec_val(prefix2) > 0x8000_0000_0000_0000);
        assert(dec_val(prefix2) * pow10(rest.len()) >= dec_val(prefix2)) by (nonlinear_arith)
            requires
                dec_val(prefix2) >= 0,
                pow10(rest.len()) >= 1,
        ;
        assert(dec_val(body) > 0x8000_0000_0000_0000);
        if idx == 1 {
            assert(body =~= s.drop_first());
        } else {
            assert(body =~= s);
        }
        if neg {
            assert(-dec_val(body) < i64::MIN as int);
        } else {
            assert(dec_val(body) > i64::MAX as int);
        }
    }
}

/// Executable decimal parse for `i32`, deciding [`spec_parse_int`] over the
/// range of that type.
pub fn parse_i32(v: &Vec<char>) -> (r: Option<i32>)
    ensures
        match r {
            Some(x) => spec_parse_int(v@, i32::MIN as int, i32::MAX as int) == Some(x as int),
            None => spec_parse_int(v@, i32::MIN as int, i32::MAX as int) is None,
        },
{
    match parse_i64(v) {
        Some(x) => {
            if -0x8000_0000i64 <= x && x <= 0x7fff_ffffi64 {
                Some(x as i32)
            } else {
                None
            }
        },
        None => None,
    }
}

/// A digit value as a character.
fn digit_to_char(d: u64) -> (c: char)
    requires
        d < 10,
    ensures
        c == digit_char(d as int),
{
    match d {
        0 => '0',
        1 => '1',
        2 => '2',
        3 => '3',
        4 => '4',
        5 => '5',
        6 => '6',
        7 => '7',
        8 => '8',
        _ => '9',
    }
}

/// The decimal rendering of an `i64`, as `Display` would write it.
pub fn i64_to_string(n: i64) -> (s: String)
    ensures
        s@ == int_string(n as int),
{
    let neg = n < 0;
    let mag: u64 = if n < 0 {
        if n < -0x7fff_ffff_ffff_ffffi64 {
            0x8000_0000_0000_0000u64
        } else {
            (0 - n) as u64
        }
    } else {
        n as u64
    };
    assert(mag as int == if n < 0 {
        -(n as int)
    } else {
        n as int
    });
    let mut ds: Vec<char> = Vec::new();
    if mag == 0 {
        ds.push('0');
        assert(ds@.reverse() =~= seq!['0']);
        assert(dec_string(mag as int) == ds@.reverse());
    } else {
        let mut m: u64 = mag;
        proof {
            assert(dec_string(mag as int) =~= dec_string(mag as int) + ds@.reverse());
        }
        while m > 0
            invariant
                mag > 0,
                m > 0 ==> dec_string(mag as int) == dec_string(m as int) + ds@.reverse(),
                m == 0 ==> dec_string(mag as int) == ds@.reverse(),
            decreases m,
        {
            let ghost old_ds = ds@;
            let ghost old_m = m as int;
            let d = m % 10;
            let c = digit_to_char(d);
            ds.push(c);
            m = m / 10;
            proof {
                assert((old_ds.push(c)).reverse() =~= seq![c] + old_ds.reverse());
                if old_m < 10 {
                    assert(m == 0);
                    assert(dec_string(old_m) == seq![digit_char(old_m)]);
                    assert(c == digit_char(old_m));
                    assert(seq![c] + old_ds.reverse() =~= dec_string(old_m) + old_ds.reverse());
                } else {
                    assert(dec_string(old_m) == dec_string(old_m / 10).push(digit_char(old_m % 10)));
                    assert(dec_string(old_m / 10).push(c) + old_ds.reverse() =~= dec_string(
                        old_m / 10,
                    ) + (seq![c] + old_ds.reverse()));
                }
            }
        }
    }
    let mut out: Vec<char> = Vec::new();
    if neg {
        out.push('-');
    }
    let ghost sign: Seq<char> = if neg {
        seq!['-']
    } else {
        Seq::empty()
    };
    assert(out@ =~= sign);
    let k = ds.len();
    for t in 0..k
        invariant
            k == ds@.len(),
            out@ =~= sign + ds@.reverse().take(t as int),
    {
        out.push(ds[k - 1 - t]);
        assert(out@ =~= sign + ds@.reverse().take(t + 1));
    }
    proof {
        assert(ds@.reverse().take(k as int) =~= ds@.reverse());
        assert(out@ =~= sign + dec_string(mag as int));
        if n < 0 {
            assert(out@ =~= int_string(n as int));
        } else {
            assert(sign + dec_string(mag as int) =~= dec_string(mag as int));
        }
    }
    string_of(&out)
}

/// The decimal rendering of an `i32`.
pub fn i32_to_string(n: i32) -> (s: String)
    ensures
        s@ == int_string(n as int),
{
    i64_to_string(n as i64)
}



// ---------------------------------------------------------------------------
// First element satisfying a predicate
// ---------------------------------------------------------------------------

/// Index of the first element of `s` satisfying `p`.
pub open spec fn first_idx_where<A>(s: Seq<A>, p: spec_fn(A) -> bool) -> Option<int>
    decreases s.len(),
{
    if s.len() == 0 {
        None
    } else if p(s[0]) {
        Some(0)
    } else {
        match first_idx_where(s.drop_first(), p) {
            Some(i) => Some(i + 1),
            None => None,
        }
    }
}

/// [`first_idx_where`] finds a satisfying element, and the first one.
pub proof fn lemma_first_idx_where<A>(s: Seq<A>, p: spec_fn(A) -> bool)
    ensures
        match first_idx_where(s, p) {
            Some(i) => 0 <= i < s.len() && p(s[i]) && forall|j: int| 0 <= j < i ==> !p(s[j]),
            None => forall|j: int| 0 <= j < s.len() ==> !p(s[j]),
        },
    decreases s.len(),
{
    if s.len() > 0 && !p(s[0]) {
        lemma_first_idx_where(s.drop_first(), p);
        assert(forall|j: int| 1 <= j < s.len() ==> #[trigger] s[j] == s.drop_first()[j - 1]);
    }
}

/// A satisfying position before which nothing satisfies is the first.
pub proof fn lemma_first_idx_where_unique<A>(s: Seq<A>, p: spec_fn(A) -> bool, i: int)
    requires
        0 <= i < s.len(),
        p(s[i]),
        forall|j: int| 0 <= j < i ==> !p(s[j]),
    ensures
        first_idx_where(s, p) == Some(i),
{
    lemma_first_idx_where(s, p);
    match first_idx_where(s, p) {
        Some(k) => {
            if k < i {
                assert(!p(s[k]));
            } else if i < k {
                assert(!p(s[i]));
            }
        },
        None => {
            assert(!p(s[i]));
        },
    }
}



// ---------------------------------------------------------------------------
// Lexicographic minimum
// ---------------------------------------------------------------------------

/// The lexicographically smallest member of a sequence of character
/// sequences; what sorting ascending and taking the first element yields.
pub open spec fn lex_min_of(s: Seq<Seq<char>>) -> Option<Seq<char>>
    decreases s.len(),
{
    if s.len() == 0 {
        None
    } else {
        match lex_min_of(s.drop_last()) {
            None => Some(s.last()),
            Some(m) => if lex_le(m, s.last()) {
                Some(m)
            } else {
                Some(s.last())
            },
        }
    }
}

/// The minimum is a member, at or below every member.
pub proof fn lemma_lex_min_of(s: Seq<Seq<char>>)
    ensures
        match lex_min_of(s) {
            Some(m) => s.contains(m) && forall|i: int| 0 <= i < s.len() ==> lex_le(m, #[trigger] s[i]),
            None => s.len() == 0,
        },
    decreases s.len(),
{
    if s.len() > 0 {
        lemma_lex_min_of(s.drop_last());
        assert(forall|i: int| 0 <= i < s.len() - 1 ==> #[trigger] s[i] == s.drop_last()[i]);
        match lex_min_of(s.drop_last()) {
            None => {
                assert(lex_le(s.last(), s.last())) by {
                    lemma_lex_le_total(s.last(), s.last());
                }
            },
            Some(m) => {
                let w = choose|w: int|
                    0 <= w < s.drop_last().len() && s.drop_last()[w] == m;
                assert(s[w] == m);
                if lex_le(m, s.last()) {
                    assert(s.contains(m));
                } else {
                    lemma_lex_le_total(m, s.last());
                    assert(lex_le(s.last(), m));
                    assert forall|i: int| 0 <= i < s.len() implies lex_le(
                        s.last(),
                        #[trigger] s[i],
                    ) by {
                        if i < s.len() - 1 {
                            lemma_lex_le_trans(s.last(), m, s[i]);
                        } else {
                            lemma_lex_le_total(s.last(), s.last());
                        }
                    }
                }
            },
        }
    }
}


} // verus!
