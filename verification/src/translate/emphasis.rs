//! Why emphasis written as HTML comes back as Markdown: the tags that
//! `emphasis_to_html` inserts are exactly what `emphasis_from_html` replaces.
use vstd::prelude::*;
use crate::markup::{hit, replace_all_from, Pat, RepKind};
use crate::text::{contains, find_from, matches_at, replace, replace_from};

verus! {

// ---------------------------------------------------------------------------
// Replacing in concatenations
// ---------------------------------------------------------------------------

/// An occurrence of `pat` in `x + y` that begins in `x` and ends in `y`.
pub open spec fn straddles(x: Seq<char>, y: Seq<char>, pat: Seq<char>) -> bool {
    exists|i: int| #![trigger matches_at(x + y, pat, i)] 0 <= i < x.len() < i + pat.len() && matches_at(x + y, pat, i)
}

proof fn lemma_replace_shift(x: Seq<char>, y: Seq<char>, pat: Seq<char>, rep: Seq<char>, j: int)
    requires
        pat.len() > 0,
        0 <= j <= y.len(),
    ensures
        replace_from(x + y, pat, rep, x.len() + j) == replace_from(y, pat, rep, j),
    decreases y.len() - j,
{
    let s = x + y;
    let i = x.len() + j;
    if j < y.len() {
        assert(s[i] == y[j]);
        if matches_at(s, pat, i) {
            assert(s.subrange(i, i + pat.len()) =~= y.subrange(j, j + pat.len()));
            lemma_replace_shift(x, y, pat, rep, j + pat.len());
        } else {
            if matches_at(y, pat, j) {
                assert(s.subrange(i, i + pat.len()) =~= y.subrange(j, j + pat.len()));
            }
            lemma_replace_shift(x, y, pat, rep, j + 1);
        }
    } else {
        assert(s.subrange(i, s.len() as int) =~= y.subrange(j, y.len() as int));
    }
}

proof fn lemma_replace_concat_from(x: Seq<char>, y: Seq<char>, pat: Seq<char>, rep: Seq<char>, i: int)
    requires
        pat.len() > 0,
        0 <= i <= x.len(),
        !straddles(x, y, pat),
    ensures
        replace_from(x + y, pat, rep, i) == replace_from(x, pat, rep, i) + replace(y, pat, rep),
    decreases x.len() - i,
{
    let s = x + y;
    if i == x.len() {
        lemma_replace_shift(x, y, pat, rep, 0);
        assert(x.subrange(i, x.len() as int) =~= Seq::<char>::empty());
        assert(Seq::<char>::empty() + replace(y, pat, rep) =~= replace(y, pat, rep));
    } else {
        assert(s[i] == x[i]);
        if matches_at(s, pat, i) {
            assert(i + pat.len() <= x.len());
            assert(s.subrange(i, i + pat.len()) =~= x.subrange(i, i + pat.len()));
            assert(matches_at(x, pat, i));
            lemma_replace_concat_from(x, y, pat, rep, i + pat.len());
            assert(rep + (replace_from(x, pat, rep, i + pat.len()) + replace(y, pat, rep)) =~= (rep + replace_from(
                x,
                pat,
                rep,
                i + pat.len(),
            )) + replace(y, pat, rep));
        } else {
            if matches_at(x, pat, i) {
                assert(s.subrange(i, i + pat.len()) =~= x.subrange(i, i + pat.len()));
            }
            lemma_replace_concat_from(x, y, pat, rep, i + 1);
            assert(seq![s[i]] + (replace_from(x, pat, rep, i + 1) + replace(y, pat, rep)) =~= (seq![x[i]] + replace_from(
                x,
                pat,
                rep,
                i + 1,
            )) + replace(y, pat, rep));
        }
    }
}

/// Replacing in a concatenation replaces in each part, when no occurrence straddles
/// the joint.
pub proof fn lemma_replace_concat(x: Seq<char>, y: Seq<char>, pat: Seq<char>, rep: Seq<char>)
    requires
        pat.len() > 0,
        !straddles(x, y, pat),
    ensures
        replace(x + y, pat, rep) == replace(x, pat, rep) + replace(y, pat, rep),
{
    lemma_replace_concat_from(x, y, pat, rep, 0);
}

proof fn lemma_replace_absent_from(x: Seq<char>, pat: Seq<char>, rep: Seq<char>, i: int)
    requires
        pat.len() > 0,
        0 <= i <= x.len(),
        forall|k: int| i <= k ==> !matches_at(x, pat, k),
    ensures
        replace_from(x, pat, rep, i) == x.subrange(i, x.len() as int),
    decreases x.len() - i,
{
    if i < x.len() {
        lemma_replace_absent_from(x, pat, rep, i + 1);
        assert(x.subrange(i, x.len() as int) =~= seq![x[i]] + x.subrange(i + 1, x.len() as int));
    }
}

/// Replacing a pattern that does not occur changes nothing.
pub proof fn lemma_replace_absent(x: Seq<char>, pat: Seq<char>, rep: Seq<char>)
    requires
        pat.len() > 0,
        !contains(x, pat),
    ensures
        replace(x, pat, rep) == x,
{
    crate::text::lemma_find_from(x, pat, 0);
    lemma_replace_absent_from(x, pat, rep, 0);
    assert(x.subrange(0, x.len() as int) =~= x);
}

/// Replacing a pattern in itself gives the replacement.
pub proof fn lemma_replace_self(pat: Seq<char>, rep: Seq<char>)
    requires
        pat.len() > 0,
    ensures
        replace(pat, pat, rep) == rep,
{
    assert(pat.subrange(0, pat.len() as int) =~= pat);
    assert(matches_at(pat, pat, 0));
    assert(pat.subrange(pat.len() as int, pat.len() as int) =~= Seq::<char>::empty());
    assert(replace_from(pat, pat, rep, pat.len() as int) =~= Seq::<char>::empty());
    assert(replace_from(pat, pat, rep, 0) == rep + replace_from(pat, pat, rep, pat.len() as int));
    assert(rep + Seq::<char>::empty() =~= rep);
}


// ---------------------------------------------------------------------------
// Tags
// ---------------------------------------------------------------------------

/// A tag: `<` only at its start, `>` only at its end.
pub open spec fn tag_shape(t: Seq<char>) -> bool {
    &&& t.len() >= 2
    &&& t[0] == '<'
    &&& t[t.len() - 1] == '>'
    &&& forall|k: int| 0 < k < t.len() ==> t[k] != '<'
    &&& forall|k: int| 0 <= k < t.len() - 1 ==> t[k] != '>'
}

/// No `<` in a text.
pub open spec fn no_open(x: Seq<char>) -> bool {
    forall|k: int| 0 <= k < x.len() ==> x[k] != '<'
}

proof fn lemma_no_straddle_before_open(x: Seq<char>, y: Seq<char>, pat: Seq<char>)
    requires
        tag_shape(pat),
        y.len() > 0,
        y[0] == '<',
    ensures
        !straddles(x, y, pat),
{
    if straddles(x, y, pat) {
        let i = choose|i: int| #![trigger matches_at(x + y, pat, i)] 0 <= i < x.len() < i + pat.len() && matches_at(x + y, pat, i);
        let k = x.len() - i;
        assert((x + y).subrange(i, i + pat.len())[k] == (x + y)[x.len() as int]);
        assert(pat[k] == '<');
    }
}

proof fn lemma_no_straddle_after_close(x: Seq<char>, y: Seq<char>, pat: Seq<char>)
    requires
        tag_shape(pat),
        x.len() > 0,
        x[x.len() - 1] == '>',
    ensures
        !straddles(x, y, pat),
{
    if straddles(x, y, pat) {
        let i = choose|i: int| #![trigger matches_at(x + y, pat, i)] 0 <= i < x.len() < i + pat.len() && matches_at(x + y, pat, i);
        let k = x.len() - 1 - i;
        assert((x + y).subrange(i, i + pat.len())[k] == (x + y)[x.len() - 1]);
        assert(pat[k] == '>');
    }
}

proof fn lemma_no_straddle_no_open(x: Seq<char>, y: Seq<char>, pat: Seq<char>)
    requires
        tag_shape(pat),
        no_open(x),
    ensures
        !straddles(x, y, pat),
{
    if straddles(x, y, pat) {
        let i = choose|i: int| #![trigger matches_at(x + y, pat, i)] 0 <= i < x.len() < i + pat.len() && matches_at(x + y, pat, i);
        assert((x + y).subrange(i, i + pat.len())[0] == x[i]);
    }
}

/// An occurrence in a part of a text is an occurrence in the text.
proof fn lemma_contains_sub(s: Seq<char>, a: int, b: int, pat: Seq<char>)
    requires
        0 <= a <= b <= s.len(),
        contains(s.subrange(a, b), pat),
    ensures
        exists|k: int| a <= k && #[trigger] matches_at(s, pat, k),
{
    crate::text::lemma_find_from(s.subrange(a, b), pat, 0);
    let k = find_from(s.subrange(a, b), pat, 0).unwrap();
    assert(s.subrange(a, b).subrange(k, k + pat.len()) =~= s.subrange(a + k, a + k + pat.len()));
    assert(matches_at(s, pat, a + k));
}

/// An occurrence at some index makes a text contain the pattern.
proof fn lemma_contains_at(s: Seq<char>, pat: Seq<char>, k: int)
    requires
        matches_at(s, pat, k),
    ensures
        contains(s, pat),
{
    crate::text::lemma_find_from(s, pat, 0);
}

/// An occurrence in a concatenation lies in one part or straddles the joint.
proof fn lemma_contains_concat(x: Seq<char>, y: Seq<char>, pat: Seq<char>)
    requires
        pat.len() > 0,
        contains(x + y, pat),
    ensures
        contains(x, pat) || contains(y, pat) || straddles(x, y, pat),
{
    crate::text::lemma_find_from(x + y, pat, 0);
    let k = find_from(x + y, pat, 0).unwrap();
    if k + pat.len() <= x.len() {
        assert((x + y).subrange(k, k + pat.len()) =~= x.subrange(k, k + pat.len()));
        lemma_contains_at(x, pat, k);
    } else if k >= x.len() {
        assert((x + y).subrange(k, k + pat.len()) =~= y.subrange(k - x.len(), k - x.len() + pat.len()));
        lemma_contains_at(y, pat, k - x.len());
    }
}

// ---------------------------------------------------------------------------
// Wrapping and unwrapping
// ---------------------------------------------------------------------------

/// `s` from index `i` on with the content of each token of kind `p` put between the
/// tags `a` and `z`.
pub open spec fn wrapped(p: Pat, a: Seq<char>, z: Seq<char>, s: Seq<char>, i: int) -> Seq<char> {
    replace_all_from(p, RepKind::Wrap, a, z, s, i)
}

/// The tags replaced back by the delimiter `d`.
pub open spec fn unwrapped(a: Seq<char>, z: Seq<char>, d: Seq<char>, x: Seq<char>) -> Seq<char> {
    replace(replace(x, a, d), z, d)
}

/// Each token of kind `p` in `s` is its content between two copies of the delimiter `d`.
pub open spec fn hits_shaped(p: Pat, s: Seq<char>, d: Seq<char>) -> bool {
    forall|i: int|
        #![trigger hit(p, s, i)]
        hit(p, s, i) matches Some(h) ==> i < h.0 && h.1 <= h.2 && s.subrange(i, h.0) == d + s.subrange(h.1, h.2) + d
}

/// Tags and a delimiter that can be told apart: two tags, the closing one without the
/// opening one in it, and a delimiter without `<` whose first character is in no tag.
pub open spec fn stage_ok(a: Seq<char>, z: Seq<char>, d: Seq<char>) -> bool {
    &&& tag_shape(a)
    &&& tag_shape(z)
    &&& d.len() > 0
    &&& no_open(d)
    &&& !contains(z, a)
    &&& forall|k: int| 0 <= k < z.len() ==> z[k] != d[0]
}

/// The first characters of a wrapped text that are no `<` are those of the text.
proof fn lemma_wrap_prefix(p: Pat, a: Seq<char>, z: Seq<char>, s: Seq<char>, i: int, m: int)
    requires
        a.len() > 0,
        a[0] == '<',
        0 <= i <= s.len(),
        0 <= m <= wrapped(p, a, z, s, i).len(),
        forall|k: int| 0 <= k < m ==> wrapped(p, a, z, s, i)[k] != '<',
    ensures
        i + m <= s.len(),
        forall|k: int| 0 <= k < m ==> s[i + k] == wrapped(p, a, z, s, i)[k],
    decreases m,
{
    if m > 0 {
        let w = wrapped(p, a, z, s, i);
        if i >= s.len() {
            assert(w.len() == 0);
        }
        match hit(p, s, i) {
            Some(h) => {
                assert(w == crate::markup::rep_text(RepKind::Wrap, a, z, s, h) + wrapped(p, a, z, s, h.0));
                assert(w[0] == a[0]);
            },
            None => {
                let w1 = wrapped(p, a, z, s, i + 1);
                assert(w == seq![s[i]] + w1);
                assert forall|k: int| 0 <= k < m - 1 implies w1[k] != '<' by {
                    assert(w1[k] == w[k + 1]);
                }
                lemma_wrap_prefix(p, a, z, s, i + 1, m - 1);
                assert forall|k: int| 0 <= k < m implies s[i + k] == w[k] by {
                    if k > 0 {
                        assert(w[k] == w1[k - 1]);
                    }
                }
            },
        }
    }
}

/// The first characters of a text after a replacement, when none of them is the
/// replacement's first character, are those of the text.
proof fn lemma_replace_prefix(y: Seq<char>, pat: Seq<char>, rep: Seq<char>, j: int, m: int)
    requires
        pat.len() > 0,
        rep.len() > 0,
        0 <= j <= y.len(),
        0 <= m <= replace_from(y, pat, rep, j).len(),
        forall|k: int| 0 <= k < m ==> replace_from(y, pat, rep, j)[k] != rep[0],
    ensures
        j + m <= y.len(),
        forall|k: int| 0 <= k < m ==> y[j + k] == replace_from(y, pat, rep, j)[k],
    decreases m,
{
    if m > 0 {
        let r = replace_from(y, pat, rep, j);
        if j >= y.len() {
            assert(r =~= Seq::<char>::empty());
        } else if matches_at(y, pat, j) {
            assert(r[0] == rep[0]);
        } else {
            let r1 = replace_from(y, pat, rep, j + 1);
            assert(r == seq![y[j]] + r1);
            assert forall|k: int| 0 <= k < m - 1 implies r1[k] != rep[0] by {
                assert(r1[k] == r[k + 1]);
            }
            lemma_replace_prefix(y, pat, rep, j + 1, m - 1);
            assert forall|k: int| 0 <= k < m implies y[j + k] == r[k] by {
                if k > 0 {
                    assert(r[k] == r1[k - 1]);
                }
            }
        }
    }
}

/// A single character before a wrapped text: no tag occurrence straddles the joint
/// unless the text holds the tag.
proof fn lemma_char_joint(p: Pat, a: Seq<char>, z: Seq<char>, s: Seq<char>, i: int, t: Seq<char>)
    requires
        tag_shape(a),
        tag_shape(t),
        0 <= i < s.len(),
        straddles(seq![s[i]], wrapped(p, a, z, s, i + 1), t),
    ensures
        matches_at(s, t, i),
{
    let x = seq![s[i]];
    let y = wrapped(p, a, z, s, i + 1);
    let q = choose|q: int| #![trigger matches_at(x + y, t, q)] 0 <= q < x.len() < q + t.len() && matches_at(x + y, t, q);
    assert(q == 0);
    let m = t.len() - 1;
    assert forall|k: int| 0 <= k < m implies y[k] != '<' by {
        assert((x + y).subrange(0, t.len() as int)[k + 1] == y[k]);
        assert(t[k + 1] != '<');
    }
    lemma_wrap_prefix(p, a, z, s, i + 1, m);
    assert(s.subrange(i, i + t.len()) =~= t) by {
        assert forall|k: int| 0 <= k < t.len() implies s.subrange(i, i + t.len())[k] == t[k] by {
            assert((x + y).subrange(0, t.len() as int)[k] == t[k]);
            if k > 0 {
                assert((x + y)[k] == y[k - 1]);
            }
        }
    }
}

/// As `lemma_char_joint`, for the closing tag after the opening tags were replaced.
proof fn lemma_char_joint_replaced(
    p: Pat,
    a: Seq<char>,
    z: Seq<char>,
    d: Seq<char>,
    s: Seq<char>,
    i: int,
)
    requires
        stage_ok(a, z, d),
        0 <= i < s.len(),
        straddles(seq![s[i]], replace(wrapped(p, a, z, s, i + 1), a, d), z),
    ensures
        matches_at(s, z, i),
{
    let x = seq![s[i]];
    let y = wrapped(p, a, z, s, i + 1);
    let y1 = replace(y, a, d);
    let q = choose|q: int| #![trigger matches_at(x + y1, z, q)] 0 <= q < x.len() < q + z.len() && matches_at(x + y1, z, q);
    assert(q == 0);
    let m = z.len() - 1;
    assert forall|k: int| 0 <= k < m implies y1[k] == z[k + 1] by {
        assert((x + y1).subrange(0, z.len() as int)[k + 1] == y1[k]);
    }
    assert forall|k: int| 0 <= k < m implies replace_from(y, a, d, 0)[k] != d[0] by {
        assert(y1[k] == z[k + 1]);
    }
    lemma_replace_prefix(y, a, d, 0, m);
    assert forall|k: int| 0 <= k < m implies y[k] != '<' by {
        assert(y[k] == y1[k]);
        assert(z[k + 1] != '<');
    }
    lemma_wrap_prefix(p, a, z, s, i + 1, m);
    assert(s.subrange(i, i + z.len()) =~= z) by {
        assert forall|k: int| 0 <= k < z.len() implies s.subrange(i, i + z.len())[k] == z[k] by {
            assert((x + y1).subrange(0, z.len() as int)[k] == z[k]);
            if k > 0 {
                assert(s[i + k] == y[k - 1]);
                assert(y[k - 1] == y1[k - 1]);
                assert((x + y1)[k] == y1[k - 1]);
            }
        }
    }
}

/// A text too short for a pattern does not contain it.
proof fn lemma_short_absent(x: Seq<char>, pat: Seq<char>)
    requires
        x.len() < pat.len(),
    ensures
        !contains(x, pat),
{
    crate::text::lemma_find_from(x, pat, 0);
}

/// A text without `<` holds no tag.
proof fn lemma_no_open_absent(x: Seq<char>, t: Seq<char>)
    requires
        no_open(x),
        tag_shape(t),
    ensures
        !contains(x, t),
{
    crate::text::lemma_find_from(x, t, 0);
    if contains(x, t) {
        let k = find_from(x, t, 0).unwrap();
        assert(x.subrange(k, k + t.len())[0] == x[k]);
    }
}

/// Unwrapping a wrapped token and what follows it.
proof fn lemma_unwrap_piece(a: Seq<char>, z: Seq<char>, d: Seq<char>, c: Seq<char>, y: Seq<char>)
    requires
        stage_ok(a, z, d),
        !contains(c, a),
        !contains(c, z),
    ensures
        unwrapped(a, z, d, a + c + z + y) == d + c + d + unwrapped(a, z, d, y),
{
    let x = a + c + z;
    assert(x[x.len() - 1] == z[z.len() - 1]);
    lemma_no_straddle_after_close(x, y, a);
    lemma_replace_concat(x, y, a, d);
    assert(x == a + (c + z));
    lemma_no_straddle_after_close(a, c + z, a);
    lemma_replace_concat(a, c + z, a, d);
    lemma_replace_self(a, d);
    lemma_no_straddle_before_open(c, z, a);
    lemma_replace_concat(c, z, a, d);
    lemma_replace_absent(c, a, d);
    lemma_replace_absent(z, a, d);
    let x1 = d + (c + z);
    assert(replace(x, a, d) == x1);
    let y1 = replace(y, a, d);
    assert(x1[x1.len() - 1] == z[z.len() - 1]);
    lemma_no_straddle_after_close(x1, y1, z);
    lemma_replace_concat(x1, y1, z, d);
    lemma_no_straddle_no_open(d, c + z, z);
    lemma_replace_concat(d, c + z, z, d);
    lemma_no_open_absent(d, z);
    lemma_replace_absent(d, z, d);
    lemma_no_straddle_before_open(c, z, z);
    lemma_replace_concat(c, z, z, d);
    lemma_replace_absent(c, z, d);
    lemma_replace_self(z, d);
    assert(replace(x1, z, d) == d + (c + d));
    assert(a + c + z + y == x + y);
    assert(d + (c + d) =~= d + c + d);
}

/// Unwrapping a character and what follows it, when no tag straddles the joint.
proof fn lemma_unwrap_char(a: Seq<char>, z: Seq<char>, d: Seq<char>, ch: char, y: Seq<char>)
    requires
        stage_ok(a, z, d),
        !straddles(seq![ch], y, a),
        !straddles(seq![ch], replace(y, a, d), z),
    ensures
        unwrapped(a, z, d, seq![ch] + y) == seq![ch] + unwrapped(a, z, d, y),
{
    let x = seq![ch];
    lemma_replace_concat(x, y, a, d);
    lemma_short_absent(x, a);
    lemma_replace_absent(x, a, d);
    let y1 = replace(y, a, d);
    lemma_replace_concat(x, y1, z, d);
    lemma_short_absent(x, z);
    lemma_replace_absent(x, z, d);
}

/// Unwrapping a wrapped text gives it back, when it holds neither tag.
proof fn lemma_stage_from(p: Pat, a: Seq<char>, z: Seq<char>, d: Seq<char>, s: Seq<char>, i: int)
    requires
        stage_ok(a, z, d),
        hits_shaped(p, s, d),
        !contains(s, a),
        !contains(s, z),
        0 <= i <= s.len(),
    ensures
        unwrapped(a, z, d, wrapped(p, a, z, s, i)) == s.subrange(i, s.len() as int),
    decreases s.len() - i,
{
    let w = wrapped(p, a, z, s, i);
    if i == s.len() {
        assert(w =~= Seq::<char>::empty());
        assert(replace(w, a, d) =~= Seq::<char>::empty());
        assert(replace(replace(w, a, d), z, d) =~= Seq::<char>::empty());
        assert(s.subrange(i, s.len() as int) =~= Seq::<char>::empty());
    } else {
        match hit(p, s, i) {
            Some(h) => {
                assert(i < h.0 && h.1 <= h.2 && s.subrange(i, h.0) == d + s.subrange(h.1, h.2) + d);
                assert(h.0 <= s.len() && i <= h.1);
                let c = s.subrange(h.1, h.2);
                let y = wrapped(p, a, z, s, h.0);
                assert(w == a + c + z + y);
                lemma_stage_from(p, a, z, d, s, h.0);
                if contains(c, a) {
                    lemma_contains_sub(s, h.1, h.2, a);
                    let k = choose|k: int| h.1 <= k && #[trigger] matches_at(s, a, k);
                    lemma_contains_at(s, a, k);
                }
                if contains(c, z) {
                    lemma_contains_sub(s, h.1, h.2, z);
                    let k = choose|k: int| h.1 <= k && #[trigger] matches_at(s, z, k);
                    lemma_contains_at(s, z, k);
                }
                lemma_unwrap_piece(a, z, d, c, y);
                assert(s.subrange(i, s.len() as int) =~= s.subrange(i, h.0) + s.subrange(h.0, s.len() as int));
            },
            None => {
                let y = wrapped(p, a, z, s, i + 1);
                assert(w == seq![s[i]] + y);
                lemma_stage_from(p, a, z, d, s, i + 1);
                if straddles(seq![s[i]], y, a) {
                    lemma_char_joint(p, a, z, s, i, a);
                    lemma_contains_at(s, a, i);
                }
                if straddles(seq![s[i]], replace(y, a, d), z) {
                    lemma_char_joint_replaced(p, a, z, d, s, i);
                    lemma_contains_at(s, z, i);
                }
                lemma_unwrap_char(a, z, d, s[i], y);
                assert(s.subrange(i, s.len() as int) =~= seq![s[i]] + s.subrange(i + 1, s.len() as int));
            },
        }
    }
}


/// A wrapped text holds a tag only if the text does, when the wrapping tags do not hold
/// it.
proof fn lemma_wrap_absent_from(p: Pat, a: Seq<char>, z: Seq<char>, s: Seq<char>, i: int, t: Seq<char>)
    requires
        tag_shape(a),
        tag_shape(z),
        tag_shape(t),
        !contains(a, t),
        !contains(z, t),
        !contains(s, t),
        0 <= i <= s.len(),
    ensures
        !contains(wrapped(p, a, z, s, i), t),
    decreases s.len() - i,
{
    let w = wrapped(p, a, z, s, i);
    if i == s.len() {
        assert(w =~= Seq::<char>::empty());
        lemma_short_absent(w, t);
    } else {
        match hit(p, s, i) {
            Some(h) => {
                assert(i < h.0 <= s.len() && i <= h.1 <= h.2 <= h.0);
                let c = s.subrange(h.1, h.2);
                let y = wrapped(p, a, z, s, h.0);
                assert(w == a + c + z + y);
                lemma_wrap_absent_from(p, a, z, s, h.0, t);
                if contains(c, t) {
                    lemma_contains_sub(s, h.1, h.2, t);
                    let k = choose|k: int| h.1 <= k && #[trigger] matches_at(s, t, k);
                    lemma_contains_at(s, t, k);
                }
                let x = a + c + z;
                assert(x[x.len() - 1] == z[z.len() - 1]);
                lemma_no_straddle_after_close(x, y, t);
                lemma_no_straddle_before_open(a + c, z, t);
                lemma_no_straddle_after_close(a, c, t);
                if contains(w, t) {
                    lemma_contains_concat(x, y, t);
                    lemma_contains_concat(a + c, z, t);
                    lemma_contains_concat(a, c, t);
                }
            },
            None => {
                let x = seq![s[i]];
                let y = wrapped(p, a, z, s, i + 1);
                assert(w == x + y);
                lemma_wrap_absent_from(p, a, z, s, i + 1, t);
                if straddles(x, y, t) {
                    lemma_char_joint(p, a, z, s, i, t);
                    lemma_contains_at(s, t, i);
                }
                lemma_short_absent(x, t);
                if contains(w, t) {
                    lemma_contains_concat(x, y, t);
                }
            },
        }
    }
}

/// Two tags that differ at some index: the first does not hold the second.
proof fn lemma_tags_differ(x: Seq<char>, t: Seq<char>, j: int)
    requires
        tag_shape(x),
        tag_shape(t),
        0 <= j < x.len(),
        j < t.len(),
        x[j] != t[j],
    ensures
        !contains(x, t),
{
    crate::text::lemma_find_from(x, t, 0);
    if contains(x, t) {
        let k = find_from(x, t, 0).unwrap();
        assert(x.subrange(k, k + t.len())[0] == x[k]);
        assert(k == 0);
        assert(x.subrange(0, t.len() as int)[j] == x[j]);
    }
}

proof fn lemma_literals()
    ensures
        tag_shape("<em>"@),
        tag_shape("</em>"@),
        tag_shape("<strong>"@),
        tag_shape("</strong>"@),
        stage_ok("<em>"@, "</em>"@, "_"@),
        stage_ok("<strong>"@, "</strong>"@, "**"@),
        !contains("<strong>"@, "<em>"@),
        !contains("</strong>"@, "<em>"@),
        !contains("<strong>"@, "</em>"@),
        !contains("</strong>"@, "</em>"@),
{
    reveal_strlit("<em>");
    reveal_strlit("</em>");
    reveal_strlit("<strong>");
    reveal_strlit("</strong>");
    reveal_strlit("_");
    reveal_strlit("**");
    lemma_tags_differ("</em>"@, "<em>"@, 1);
    lemma_tags_differ("</strong>"@, "<strong>"@, 1);
    lemma_tags_differ("<strong>"@, "<em>"@, 1);
    lemma_tags_differ("</strong>"@, "<em>"@, 1);
    lemma_tags_differ("<strong>"@, "</em>"@, 1);
    lemma_tags_differ("</strong>"@, "</em>"@, 2);
}

/// An emphasis token is its text between two underscores.
proof fn lemma_em_shaped(s: Seq<char>)
    ensures
        hits_shaped(Pat::Em, s, "_"@),
{
    reveal_strlit("_");
    assert forall|i: int| #![trigger hit(Pat::Em, s, i)] (hit(Pat::Em, s, i) matches Some(h) ==> i < h.0 && h.1 <= h.2
        && s.subrange(i, h.0) == "_"@ + s.subrange(h.1, h.2) + "_"@) by {
        if let Some(h) = hit(Pat::Em, s, i) {
            crate::text::lemma_find_char(s, '_', i + 1);
            assert(s.subrange(i, h.0) =~= "_"@ + s.subrange(h.1, h.2) + "_"@);
        }
    }
}

/// A strong emphasis token is its text between two pairs of asterisks.
proof fn lemma_bold_shaped(s: Seq<char>)
    ensures
        hits_shaped(Pat::Bold, s, "**"@),
{
    reveal_strlit("**");
    assert forall|i: int| #![trigger hit(Pat::Bold, s, i)] (hit(Pat::Bold, s, i) matches Some(h) ==> i < h.0 && h.1
        <= h.2 && s.subrange(i, h.0) == "**"@ + s.subrange(h.1, h.2) + "**"@) by {
        if let Some(h) = hit(Pat::Bold, s, i) {
            crate::text::lemma_find_char(s, '*', i + 2);
            assert(s.subrange(i, i + 2) =~= "**"@);
            assert(s.subrange(h.2, h.2 + 2) =~= "**"@);
            assert(s.subrange(i, h.0) =~= "**"@ + s.subrange(h.1, h.2) + "**"@);
        }
    }
}

/// Emphasis written as HTML comes back as the Markdown it was written from: converting a
/// text's `_emphasis_` and `**strong emphasis**` to `<em>`/`<strong>` elements and back
/// gives the text again, as long as it holds none of the four tags itself.
pub proof fn lemma_emphasis_round_trip(t: Seq<char>)
    requires
        !contains(t, "<em>"@),
        !contains(t, "</em>"@),
        !contains(t, "<strong>"@),
        !contains(t, "</strong>"@),
    ensures
        crate::translate::common::spec_emphasis_from_html(crate::translate::common::spec_emphasis_to_html(t)) == t,
{
    lemma_literals();
    lemma_bold_shaped(t);
    let b = wrapped(Pat::Bold, "<strong>"@, "</strong>"@, t, 0);
    lemma_stage_from(Pat::Bold, "<strong>"@, "</strong>"@, "**"@, t, 0);
    lemma_wrap_absent_from(Pat::Bold, "<strong>"@, "</strong>"@, t, 0, "<em>"@);
    lemma_wrap_absent_from(Pat::Bold, "<strong>"@, "</strong>"@, t, 0, "</em>"@);
    lemma_em_shaped(b);
    lemma_stage_from(Pat::Em, "<em>"@, "</em>"@, "_"@, b, 0);
    assert(t.subrange(0, t.len() as int) =~= t);
    assert(b.subrange(0, b.len() as int) =~= b);
}
} // verus!
