//! Reading back a written document: the lines of a document as `render_document`
//! writes it, and what `parse_document` makes of them.
use vstd::prelude::*;
use crate::text::{
    append_line, find_char, lemma_find_char, lemma_trim_len, lines, lines_from, starts_with, strip_cr,
    trim, trim_end, trim_start, white_space,
};
use crate::translate::common::{doc_fold, spec_parse_document, DocState};
use crate::translate::session::document_text;

verus! {

/// The pieces of `s` from index `i` on, cut at each line feed (`str::split('\n')`).
pub open spec fn pieces_from(s: Seq<char>, i: int) -> Seq<Seq<char>>
    decreases s.len() - i,
{
    if i < 0 || i > s.len() {
        Seq::empty()
    } else {
        match find_char(s, '\n', i) {
            Some(j) => if i <= j < s.len() {
                seq![s.subrange(i, j)] + pieces_from(s, j + 1)
            } else {
                Seq::empty()
            },
            None => seq![s.subrange(i, s.len() as int)],
        }
    }
}

/// The pieces of `s` between line feeds.
pub open spec fn pieces(s: Seq<char>) -> Seq<Seq<char>> {
    pieces_from(s, 0)
}

proof fn lemma_find_push(t: Seq<char>, c: char, i: int)
    requires
        0 <= i <= t.len(),
    ensures
        find_char(t.push(c), '\n', i) == (match find_char(t, '\n', i) {
            Some(j) => Some(j),
            None => if c == '\n' {
                Some(t.len() as int)
            } else {
                None
            },
        }),
    decreases t.len() - i,
{
    let s = t.push(c);
    if i < t.len() {
        assert(s[i] == t[i]);
        if t[i] != '\n' {
            lemma_find_push(t, c, i + 1);
        }
    } else {
        assert(s[i] == c);
        assert(find_char(s, '\n', i + 1) is None);
    }
}

proof fn lemma_pieces_nonempty(s: Seq<char>, i: int)
    requires
        0 <= i <= s.len(),
    ensures
        pieces_from(s, i).len() > 0,
    decreases s.len() - i,
{
    lemma_find_char(s, '\n', i);
    match find_char(s, '\n', i) {
        Some(j) => {
            lemma_pieces_nonempty(s, j + 1);
        },
        None => {},
    }
}

proof fn lemma_pieces_push_newline(t: Seq<char>, i: int)
    requires
        0 <= i <= t.len(),
    ensures
        pieces_from(t.push('\n'), i) == pieces_from(t, i).push(Seq::<char>::empty()),
    decreases t.len() - i,
{
    let s = t.push('\n');
    lemma_find_push(t, '\n', i);
    lemma_find_char(t, '\n', i);
    match find_char(t, '\n', i) {
        Some(j) => {
            lemma_pieces_push_newline(t, j + 1);
            assert(s.subrange(i, j) =~= t.subrange(i, j));
            assert(seq![t.subrange(i, j)] + pieces_from(t, j + 1).push(Seq::<char>::empty()) =~= (seq![
                t.subrange(i, j),
            ] + pieces_from(t, j + 1)).push(Seq::<char>::empty()));
        },
        None => {
            assert(s.subrange(i, t.len() as int) =~= t.subrange(i, t.len() as int));
            let e: int = (t.len() + 1) as int;
            assert(find_char(s, '\n', e) is None);
            assert(s.subrange(e, s.len() as int) =~= Seq::<char>::empty());
            assert(pieces_from(s, e) =~= seq![Seq::<char>::empty()]);
        },
    }
}

proof fn lemma_pieces_push_other(t: Seq<char>, c: char, i: int)
    requires
        0 <= i <= t.len(),
        c != '\n',
    ensures
        ({
            let p = pieces_from(t, i);
            pieces_from(t.push(c), i) == p.update(p.len() - 1, p.last().push(c))
        }),
    decreases t.len() - i,
{
    let s = t.push(c);
    lemma_find_push(t, c, i);
    lemma_find_char(t, '\n', i);
    lemma_pieces_nonempty(t, i);
    match find_char(t, '\n', i) {
        Some(j) => {
            lemma_pieces_push_other(t, c, j + 1);
            lemma_pieces_nonempty(t, j + 1);
            assert(s.subrange(i, j) =~= t.subrange(i, j));
            let q = pieces_from(t, j + 1);
            assert(seq![t.subrange(i, j)] + q.update(q.len() - 1, q.last().push(c)) =~= (seq![
                t.subrange(i, j),
            ] + q).update(q.len() as int, q.last().push(c)));
        },
        None => {
            assert(s.subrange(i, s.len() as int) =~= t.subrange(i, t.len() as int).push(c));
        },
    }
}

/// The pieces of `a`, a line feed and `b` are the pieces of `a` followed by those of `b`.
proof fn lemma_pieces_concat(a: Seq<char>, b: Seq<char>)
    ensures
        pieces(a + "\n"@ + b) == pieces(a) + pieces(b),
    decreases b.len(),
{
    reveal_strlit("\n");
    if b.len() == 0 {
        assert(a + "\n"@ + b =~= a.push('\n'));
        lemma_pieces_push_newline(a, 0);
        assert(b.subrange(0, 0) =~= Seq::<char>::empty());
        assert(pieces(b) =~= seq![Seq::<char>::empty()]);
    } else {
        let b0 = b.drop_last();
        let c = b.last();
        lemma_pieces_concat(a, b0);
        assert(a + "\n"@ + b =~= (a + "\n"@ + b0).push(c));
        assert(b =~= b0.push(c));
        lemma_pieces_nonempty(b0, 0);
        if c == '\n' {
            lemma_pieces_push_newline(a + "\n"@ + b0, 0);
            lemma_pieces_push_newline(b0, 0);
            assert(pieces(a) + pieces(b0).push(Seq::<char>::empty()) =~= (pieces(a) + pieces(b0)).push(
                Seq::<char>::empty(),
            ));
        } else {
            lemma_pieces_push_other(a + "\n"@ + b0, c, 0);
            lemma_pieces_push_other(b0, c, 0);
            let p = pieces(b0);
            assert(pieces(a) + p.update(p.len() - 1, p.last().push(c)) =~= (pieces(a) + p).update(
                pieces(a).len() + p.len() - 1,
                p.last().push(c),
            ));
        }
    }
}

/// A text without line feeds is a single piece.
proof fn lemma_pieces_single(s: Seq<char>)
    requires
        forall|k: int| 0 <= k < s.len() ==> s[k] != '\n',
    ensures
        pieces(s) == seq![s],
{
    lemma_find_char(s, '\n', 0);
    assert(s.subrange(0, s.len() as int) =~= s);
}

/// Whether `s` holds no carriage return.
pub open spec fn no_cr(s: Seq<char>) -> bool {
    forall|k: int| 0 <= k < s.len() ==> s[k] != '\r'
}

/// Whether `s` holds no line feed.
pub open spec fn no_lf(s: Seq<char>) -> bool {
    forall|k: int| 0 <= k < s.len() ==> s[k] != '\n'
}

/// The lines of a text without carriage returns are its pieces, without the empty one
/// after a final line feed.
proof fn lemma_lines_are_pieces(s: Seq<char>, i: int)
    requires
        0 <= i <= s.len(),
        no_cr(s),
    ensures
        lines_from(s, i) == (if pieces_from(s, i).last().len() == 0 {
            pieces_from(s, i).drop_last()
        } else {
            pieces_from(s, i)
        }),
    decreases s.len() - i,
{
    lemma_find_char(s, '\n', i);
    if i == s.len() {
        assert(s.subrange(i, i) =~= Seq::<char>::empty());
        assert(pieces_from(s, i) =~= seq![Seq::<char>::empty()]);
    } else {
        match find_char(s, '\n', i) {
            Some(j) => {
                lemma_lines_are_pieces(s, j + 1);
                lemma_pieces_nonempty(s, j + 1);
                let x = s.subrange(i, j);
                assert(strip_cr(x) == x) by {
                    if x.len() > 0 {
                        assert(x.last() == s[j - 1]);
                    }
                }
                let q = pieces_from(s, j + 1);
                assert((seq![x] + q).last() == q.last());
                assert((seq![x] + q).drop_last() =~= seq![x] + q.drop_last());
            },
            None => {},
        }
    }
}

/// Joining pieces back as `parse_document` does: each piece after a line break,
/// unless nothing has been joined yet.
pub open spec fn join_lines(ps: Seq<Seq<char>>) -> Seq<char>
    decreases ps.len(),
{
    if ps.len() == 0 {
        Seq::empty()
    } else {
        append_line(join_lines(ps.drop_last()), ps.last())
    }
}

/// Joining the pieces of a text that does not start with a line feed gives it back.
proof fn lemma_join_pieces(s: Seq<char>)
    requires
        s.len() == 0 || s[0] != '\n',
    ensures
        join_lines(pieces(s)) == s,
    decreases s.len(),
{
    if s.len() == 0 {
        assert(s.subrange(0, 0) =~= Seq::<char>::empty());
        assert(pieces(s) =~= seq![Seq::<char>::empty()]);
        let p = seq![Seq::<char>::empty()];
        assert(p.drop_last() =~= Seq::<Seq<char>>::empty());
        assert(join_lines(p) == append_line(join_lines(p.drop_last()), p.last()));
        assert(join_lines(Seq::<Seq<char>>::empty()) == Seq::<char>::empty());
        assert(s =~= Seq::<char>::empty());
    } else {
        let t = s.drop_last();
        let c = s.last();
        assert(s =~= t.push(c));
        if t.len() > 0 {
            assert(t[0] == s[0]);
        }
        lemma_join_pieces(t);
        lemma_pieces_nonempty(t, 0);
        let p = pieces(t);
        if c == '\n' {
            lemma_pieces_push_newline(t, 0);
            let q = p.push(Seq::<char>::empty());
            assert(q.drop_last() =~= p);
            assert(q.last() == Seq::<char>::empty());
            assert(t.len() > 0);
            assert(join_lines(q) == append_line(join_lines(p), Seq::<char>::empty()));
            assert(append_line(t, Seq::<char>::empty()) =~= s);
        } else {
            lemma_pieces_push_other(t, c, 0);
            let q = p.update(p.len() - 1, p.last().push(c));
            assert(q.drop_last() =~= p.drop_last());
            assert(q.last() == p.last().push(c));
            assert(join_lines(q) == append_line(join_lines(q.drop_last()), q.last()));
            assert(join_lines(p) == append_line(join_lines(p.drop_last()), p.last()));
            assert(append_line(join_lines(p.drop_last()), p.last().push(c)) =~= append_line(
                join_lines(p.drop_last()),
                p.last(),
            ).push(c));
        }
    }
}

// ---------------------------------------------------------------------------
// Reading a document line by line
// ---------------------------------------------------------------------------

/// One line read by `parse_document` (as in `doc_fold`).
pub open spec fn doc_step(st: DocState, line: Seq<char>) -> DocState {
    let (pre, rs, h, b, inr) = st;
    if starts_with(line, "### "@) {
        (pre, if inr {
            rs.push((h, trim(b)))
        } else {
            rs
        }, line, Seq::empty(), true)
    } else if !inr {
        (append_line(pre, line), rs, h, b, inr)
    } else {
        (pre, rs, h, append_line(b, line), inr)
    }
}

/// The lines `ls` read one after another from the state `st`.
pub open spec fn doc_steps(st: DocState, ls: Seq<Seq<char>>) -> DocState
    decreases ls.len(),
{
    if ls.len() == 0 {
        st
    } else {
        doc_step(doc_steps(st, ls.drop_last()), ls.last())
    }
}

pub open spec fn doc_start() -> DocState {
    (Seq::empty(), Seq::empty(), Seq::empty(), Seq::empty(), false)
}

proof fn lemma_fold_is_steps(ls: Seq<Seq<char>>)
    ensures
        doc_fold(ls) == doc_steps(doc_start(), ls),
    decreases ls.len(),
{
    if ls.len() > 0 {
        lemma_fold_is_steps(ls.drop_last());
    }
}

proof fn lemma_steps_append(st: DocState, x: Seq<Seq<char>>, y: Seq<Seq<char>>)
    ensures
        doc_steps(st, x + y) == doc_steps(doc_steps(st, x), y),
    decreases y.len(),
{
    if y.len() == 0 {
        assert(x + y =~= x);
    } else {
        lemma_steps_append(st, x, y.drop_last());
        assert((x + y).drop_last() =~= x + y.drop_last());
        assert((x + y).last() == y.last());
    }
}

/// Whether no line of `ls` opens a remark.
pub open spec fn no_heading_line(ls: Seq<Seq<char>>) -> bool {
    forall|k: int| 0 <= k < ls.len() ==> !starts_with(#[trigger] ls[k], "### "@)
}

proof fn lemma_steps_preamble(ls: Seq<Seq<char>>)
    requires
        no_heading_line(ls),
    ensures
        doc_steps(doc_start(), ls) == (join_lines(ls), Seq::<(Seq<char>, Seq<char>)>::empty(), Seq::<char>::empty(), Seq::<char>::empty(), false),
    decreases ls.len(),
{
    if ls.len() > 0 {
        lemma_steps_preamble(ls.drop_last());
        assert(!starts_with(ls[ls.len() - 1], "### "@));
    }
}

proof fn lemma_steps_body(st: DocState, ls: Seq<Seq<char>>)
    requires
        no_heading_line(ls),
        st.4,
        st.3.len() == 0,
    ensures
        doc_steps(st, ls) == (st.0, st.1, st.2, join_lines(ls), true),
    decreases ls.len(),
{
    if ls.len() > 0 {
        lemma_steps_body(st, ls.drop_last());
        assert(!starts_with(ls[ls.len() - 1], "### "@));
    }
}

proof fn lemma_join_blank_first(x: Seq<Seq<char>>)
    ensures
        join_lines(seq![Seq::<char>::empty()] + x) == join_lines(x),
    decreases x.len(),
{
    if x.len() == 0 {
        let p = seq![Seq::<char>::empty()];
        assert(p + x =~= p);
        assert(p.drop_last() =~= Seq::<Seq<char>>::empty());
        assert(join_lines(p) == append_line(join_lines(p.drop_last()), p.last()));
        assert(join_lines(p) =~= Seq::<char>::empty());
    } else {
        lemma_join_blank_first(x.drop_last());
        assert((seq![Seq::<char>::empty()] + x).drop_last() =~= seq![Seq::<char>::empty()] + x.drop_last());
    }
}

/// A trimmed non-empty text starts and ends with characters that are not white space.
proof fn lemma_trimmed_ends(b: Seq<char>)
    requires
        trim(b) == b,
        b.len() > 0,
    ensures
        !white_space(b[0]),
        !white_space(b.last()),
{
    if white_space(b[0]) {
        assert(trim_start(b) == trim_start(b.drop_first()));
        lemma_trim_len(b.drop_first());
        lemma_trim_start_len(b.drop_first());
        lemma_trim_end_len(trim_start(b.drop_first()));
        assert(false);
    }
    assert(trim_start(b) == b);
    if white_space(b.last()) {
        assert(trim_end(b) == trim_end(b.drop_last()));
        lemma_trim_end_len(b.drop_last());
        assert(false);
    }
}

proof fn lemma_trim_start_len(s: Seq<char>)
    ensures
        trim_start(s).len() <= s.len(),
    decreases s.len(),
{
    if s.len() > 0 && white_space(s[0]) {
        lemma_trim_start_len(s.drop_first());
    }
}

proof fn lemma_trim_end_len(s: Seq<char>)
    ensures
        trim_end(s).len() <= s.len(),
    decreases s.len(),
{
    if s.len() > 0 && white_space(s.last()) {
        lemma_trim_end_len(s.drop_last());
    }
}

/// A trimmed body followed by a line break trims back to itself.
proof fn lemma_trim_line_break(b: Seq<char>)
    requires
        trim(b) == b,
    ensures
        trim(append_line(b, Seq::empty())) == b,
{
    if b.len() > 0 {
        lemma_trimmed_ends(b);
        let c = append_line(b, Seq::empty());
        assert(c =~= b.push('\n'));
        assert(c[0] == b[0]);
        assert(trim_start(c) == c);
        assert(white_space('\n')) by {
            reveal(white_space);
        }
        assert(c.drop_last() =~= b);
        assert(trim_end(c) == trim_end(b));
        assert(trim_end(b) == b);
    } else {
        assert(append_line(b, Seq::empty()) =~= Seq::<char>::empty());
    }
}

// ---------------------------------------------------------------------------
// Writing and reading back
// ---------------------------------------------------------------------------

/// The pieces the remarks of a written document make up: for each, its heading, a
/// blank line, the pieces of its body and the end of its last line.
pub open spec fn remark_pieces(rs: Seq<(Seq<char>, Seq<char>)>) -> Seq<Seq<char>>
    decreases rs.len(),
{
    if rs.len() == 0 {
        Seq::empty()
    } else {
        remark_pieces(rs.drop_last()) + seq![rs.last().0, Seq::<char>::empty()] + pieces(rs.last().1)
            + seq![Seq::<char>::empty()]
    }
}

/// Whether each heading is a single line.
pub open spec fn headings_single_line(rs: Seq<(Seq<char>, Seq<char>)>) -> bool {
    forall|k: int| 0 <= k < rs.len() ==> no_lf(#[trigger] rs[k].0)
}

proof fn lemma_document_pieces(pre: Seq<char>, rs: Seq<(Seq<char>, Seq<char>)>)
    requires
        headings_single_line(rs),
    ensures
        pieces(document_text(pre, rs)) == pieces(pre) + remark_pieces(rs),
    decreases rs.len(),
{
    reveal_strlit("\n");
    reveal_strlit("\n\n");
    if rs.len() == 0 {
        assert(pieces(pre) + Seq::<Seq<char>>::empty() =~= pieces(pre));
    } else {
        let rs0 = rs.drop_last();
        assert forall|k: int| 0 <= k < rs0.len() implies no_lf(#[trigger] rs0[k].0) by {
            assert(rs0[k] == rs[k]);
        }
        lemma_document_pieces(pre, rs0);
        let d = document_text(pre, rs0);
        let (h, b) = rs.last();
        assert(no_lf(rs[rs.len() - 1].0));
        let e = Seq::<char>::empty();
        assert(document_text(pre, rs) =~= d + "\n"@ + (h + "\n"@ + (e + "\n"@ + (b + "\n"@ + e))));
        lemma_pieces_concat(d, h + "\n"@ + (e + "\n"@ + (b + "\n"@ + e)));
        lemma_pieces_concat(h, e + "\n"@ + (b + "\n"@ + e));
        lemma_pieces_concat(e, b + "\n"@ + e);
        lemma_pieces_concat(b, e);
        lemma_pieces_single(h);
        lemma_pieces_single(e);
        assert(pieces(document_text(pre, rs)) =~= pieces(pre) + remark_pieces(rs));
    }
}

/// Whether every remark's heading opens a remark and is one line without carriage
/// returns, and every body is trimmed, without carriage returns and without a line
/// that opens a remark.
pub open spec fn well_written(rs: Seq<(Seq<char>, Seq<char>)>) -> bool {
    forall|k: int|
        0 <= k < rs.len() ==> {
            let (h, b) = #[trigger] rs[k];
            &&& starts_with(h, "### "@)
            &&& no_lf(h)
            &&& no_cr(h)
            &&& trim(b) == b
            &&& no_cr(b)
            &&& no_heading_line(pieces(b))
        }
}

proof fn lemma_read_remarks(pre: Seq<char>, rs: Seq<(Seq<char>, Seq<char>)>)
    requires
        well_written(rs),
        rs.len() > 0,
    ensures
        doc_steps((pre, Seq::empty(), Seq::empty(), Seq::empty(), false), remark_pieces(rs)) == (
            pre,
            rs.drop_last(),
            rs.last().0,
            append_line(rs.last().1, Seq::empty()),
            true,
        ),
    decreases rs.len(),
{
    reveal_strlit("### ");
    let rs0 = rs.drop_last();
    let (h, b) = rs.last();
    let e = Seq::<char>::empty();
    assert(!starts_with(e, "### "@));
    assert(well_written(rs0)) by {
        assert forall|k: int| 0 <= k < rs0.len() implies #[trigger] rs0[k] == rs[k] by {}
    }
    let st0: DocState = (pre, Seq::empty(), Seq::empty(), Seq::empty(), false);
    let mid = if rs0.len() == 0 {
        st0
    } else {
        lemma_read_remarks(pre, rs0);
        (pre, rs0.drop_last(), rs0.last().0, append_line(rs0.last().1, e), true)
    };
    assert(doc_steps(st0, remark_pieces(rs0)) == mid) by {
        if rs0.len() == 0 {
            assert(remark_pieces(rs0) =~= Seq::<Seq<char>>::empty());
        }
    }
    let k = rs.len() - 1;
    assert(rs[k] == (h, b));
    let blk = seq![h, e] + pieces(b) + seq![e];
    assert(remark_pieces(rs) == remark_pieces(rs0) + blk);
    lemma_steps_append(st0, remark_pieces(rs0), blk);
    // The heading line.
    let after_h = doc_step(mid, h);
    if rs0.len() > 0 {
        let j = rs0.len() - 1;
        assert(rs0[j] == rs[j]);
        lemma_trim_line_break(rs0.last().1);
        assert(rs0.drop_last().push((rs0.last().0, rs0.last().1)) =~= rs0);
    }
    assert(after_h == (pre, rs0, h, e, true));
    // The blank line and the body.
    let body = seq![e] + pieces(b);
    assert(no_heading_line(body)) by {
        assert forall|m: int| 0 <= m < body.len() implies !starts_with(#[trigger] body[m], "### "@) by {
            if m > 0 {
                assert(body[m] == pieces(b)[m - 1]);
            }
        }
    }
    lemma_steps_body(after_h, body);
    lemma_join_blank_first(pieces(b));
    if b.len() > 0 {
        lemma_trimmed_ends(b);
        assert(white_space('\n')) by {
            reveal(white_space);
        }
    }
    lemma_join_pieces(b);
    assert(seq![h, e] + pieces(b) + seq![e] =~= seq![h] + body + seq![e]);
    lemma_steps_append(mid, seq![h], body + seq![e]);
    assert(seq![h] + (body + seq![e]) =~= blk);
    assert(doc_steps(mid, seq![h]) == after_h) by {
        assert(seq![h].drop_last() =~= Seq::<Seq<char>>::empty());
        assert(doc_steps(mid, seq![h].drop_last()) == mid);
        assert(seq![h].last() == h);
    }
    lemma_steps_append(after_h, body, seq![e]);
    assert(doc_steps(after_h, body) == (pre, rs0, h, b, true));
    assert(doc_steps((pre, rs0, h, b, true), seq![e]) == (pre, rs0, h, append_line(b, e), true)) by {
        assert(seq![e].drop_last() =~= Seq::<Seq<char>>::empty());
        assert(doc_steps((pre, rs0, h, b, true), seq![e].drop_last()) == (pre, rs0, h, b, true));
        assert(seq![e].last() == e);
        assert(!starts_with(e, "### "@));
    }
}

/// Reading back what `render_document` writes gives the preamble and the remarks again,
/// when the preamble does not start with a line break, holds no carriage return and no
/// line that opens a remark, each heading opens a remark and is one line without
/// carriage returns, and each body is trimmed and holds no carriage return and no line
/// that opens a remark.
pub proof fn lemma_parse_rendered_document(pre: Seq<char>, rs: Seq<(Seq<char>, Seq<char>)>)
    requires
        rs.len() > 0,
        pre.len() == 0 || pre[0] != '\n',
        no_cr(pre),
        no_heading_line(pieces(pre)),
        well_written(rs),
    ensures
        spec_parse_document(document_text(pre, rs)) == (pre, rs),
{
    assert(headings_single_line(rs)) by {
        assert forall|k: int| 0 <= k < rs.len() implies no_lf(#[trigger] rs[k].0) by {
            let (h, b) = rs[k];
        }
    }
    let doc = document_text(pre, rs);
    lemma_document_pieces(pre, rs);
    assert(no_cr(doc)) by {
        lemma_document_no_cr(pre, rs);
    }
    lemma_lines_are_pieces(doc, 0);
    let rp = remark_pieces(rs);
    let rs0 = rs.drop_last();
    let (h, b) = rs.last();
    let e = Seq::<char>::empty();
    assert(rs[rs.len() - 1] == (h, b));
    assert(rp == remark_pieces(rs0) + seq![h, e] + pieces(b) + seq![e]);
    assert(rp.last() == e);
    assert((pieces(pre) + rp).last() == e);
    assert(lines(doc) =~= pieces(pre) + rp.drop_last());
    lemma_fold_is_steps(lines(doc));
    lemma_steps_append(doc_start(), pieces(pre), rp.drop_last());
    lemma_steps_preamble(pieces(pre));
    lemma_join_pieces(pre);
    let st0: DocState = (pre, Seq::empty(), Seq::empty(), Seq::empty(), false);
    assert(doc_steps(doc_start(), pieces(pre)) == st0);
    // All remark pieces read: the state before the last line.
    lemma_read_remarks(pre, rs);
    assert(rp =~= rp.drop_last().push(e));
    lemma_steps_append(st0, rp.drop_last(), seq![e]);
    assert(seq![e].drop_last() =~= Seq::<Seq<char>>::empty());
    let before = doc_steps(st0, rp.drop_last());
    reveal_strlit("### ");
    assert(!starts_with(e, "### "@));
    assert(rp.drop_last() + seq![e] =~= rp);
    assert(doc_steps(st0, rp) == doc_steps(before, seq![e]));
    assert(doc_steps(before, seq![e]) == doc_step(doc_steps(before, seq![e].drop_last()), e));
    assert(doc_steps(before, seq![e].drop_last()) == before);
    assert(before.4) by {
        if !before.4 {
            assert(doc_step(before, e).4 == false);
        }
    }
    assert(doc_step(before, e) == (before.0, before.1, before.2, append_line(before.3, e), true));
    assert(before.0 == pre && before.1 == rs0 && before.2 == h);
    assert(append_line(before.3, e) == append_line(b, e));
    // The body before its final line end.
    assert(before.3 == b) by {
        if before.3.len() == 0 {
            if b.len() > 0 {
                assert(append_line(b, e).len() > 0);
            }
        } else {
            assert(append_line(before.3, e) =~= before.3.push('\n'));
            if b.len() == 0 {
                assert(append_line(b, e).len() == 0);
            } else {
                assert(append_line(b, e) =~= b.push('\n'));
                assert(before.3 =~= append_line(before.3, e).drop_last());
            }
        }
    }
    let k = rs.len() - 1;
    assert(trim(b) == b);
    assert(rs0.push((h, trim(b))) =~= rs);
}

proof fn lemma_document_no_cr(pre: Seq<char>, rs: Seq<(Seq<char>, Seq<char>)>)
    requires
        no_cr(pre),
        well_written(rs),
    ensures
        no_cr(document_text(pre, rs)),
    decreases rs.len(),
{
    reveal_strlit("\n");
    reveal_strlit("\n\n");
    if rs.len() > 0 {
        let rs0 = rs.drop_last();
        assert(well_written(rs0)) by {
            assert forall|k: int| 0 <= k < rs0.len() implies #[trigger] rs0[k] == rs[k] by {}
        }
        lemma_document_no_cr(pre, rs0);
        let (h, b) = rs.last();
        assert(rs[rs.len() - 1] == (h, b));
        let d = document_text(pre, rs);
        let d0 = document_text(pre, rs0);
        assert(d =~= d0 + "\n"@ + h + "\n\n"@ + b + "\n"@);
        assert forall|m: int| 0 <= m < d.len() implies d[m] != '\r' by {
            let a = d0.len() as int;
            if m < a {
                assert(d[m] == d0[m]);
            } else if m == a {
            } else if m < a + 1 + h.len() {
                assert(d[m] == h[m - a - 1]);
            } else if m < a + 3 + h.len() {
            } else if m < a + 3 + h.len() + b.len() {
                assert(d[m] == b[m - a - 3 - h.len()]);
            }
        }
    }
}

} // verus!
