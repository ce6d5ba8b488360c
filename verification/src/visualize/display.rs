//! Which source remarks a diagram shows and which it folds into truncation markers.
use vstd::prelude::*;

verus! {

/// The number of remarks kept visible around each correspondence, and at each end.
pub const MIN_CONTEXT: usize = 20;

/// One row of a source document column: a remark shown (by its index), or a
/// truncation marker standing for a number of hidden remarks.
#[derive(Clone, Copy, Debug, PartialEq, Eq, Structural)]
pub enum DisplayEntry {
    Show(usize),
    Truncated(usize),
}

// ---------------------------------------------------------------------------
// Well-formed entry lists
// ---------------------------------------------------------------------------

/// The index after the last remark that `es` accounts for, if the entries cover the
/// remarks `0..` consecutively: a `Show(i)` must show the next index, a `Truncated(n)`
/// hides the next `n >= 1` indices.
pub open spec fn part_end(es: Seq<DisplayEntry>) -> Option<int>
    decreases es.len(),
{
    if es.len() == 0 {
        Some(0)
    } else {
        match part_end(es.drop_last()) {
            Some(p) => match es.last() {
                DisplayEntry::Show(i) => if i == p {
                    Some(p + 1)
                } else {
                    None
                },
                DisplayEntry::Truncated(n) => if n >= 1 {
                    Some(p + n)
                } else {
                    None
                },
            },
            None => None,
        }
    }
}

/// A truncation marker at position `p` is preceded by a shown remark.
pub open spec fn trunc_ok(es: Seq<DisplayEntry>, p: int) -> bool {
    es[p] is Truncated ==> es[p - 1] is Show
}

/// No two truncation markers are adjacent.
pub open spec fn adj_ok(es: Seq<DisplayEntry>) -> bool {
    forall|p: int| 0 < p < es.len() ==> #[trigger] trunc_ok(es, p)
}

/// The entries cover the remarks `0..count` in order, with no two truncation markers
/// next to each other.
pub open spec fn well_formed(es: Seq<DisplayEntry>, count: int) -> bool {
    part_end(es) == Some(count) && adj_ok(es)
}

/// Whether remark `i` is shown.
pub open spec fn shown(es: Seq<DisplayEntry>, i: int) -> bool {
    exists|k: int| 0 <= k < es.len() && es[k] == DisplayEntry::Show(i as usize) && 0 <= i
}

/// The total number of hidden remarks.
pub open spec fn hidden_total(es: Seq<DisplayEntry>) -> nat
    decreases es.len(),
{
    if es.len() == 0 {
        0
    } else {
        hidden_total(es.drop_last()) + match es.last() {
            DisplayEntry::Show(_) => 0nat,
            DisplayEntry::Truncated(n) => n as nat,
        }
    }
}

// ---------------------------------------------------------------------------
// Marking and initial entries
// ---------------------------------------------------------------------------

/// The first remark in the context window around remark `idx`.
pub open spec fn window_start(idx: int) -> int {
    if idx >= MIN_CONTEXT {
        idx - MIN_CONTEXT
    } else {
        0
    }
}

/// The end (exclusive) of the context window around remark `idx` of `count`.
pub open spec fn window_end(count: int, idx: int) -> int {
    if idx + MIN_CONTEXT + 1 <= count {
        idx + MIN_CONTEXT + 1
    } else {
        count
    }
}

/// Whether remark `i` lies in the context window around remark `idx`.
pub open spec fn in_window(count: int, idx: int, i: int) -> bool {
    window_start(idx) <= i < window_end(count, idx)
}

/// Whether remark `i` of `count` must be shown: it lies within the context window of a
/// correspondence, or among the first or last `MIN_CONTEXT` remarks.
pub open spec fn must_show(count: int, corr: Seq<usize>, i: int) -> bool {
    (exists|k: int| 0 <= k < corr.len() && #[trigger] in_window(count, corr[k] as int, i))
        || i < MIN_CONTEXT || i >= count - MIN_CONTEXT
}

/// The entries after reading the first `n` marks, and the length of the current run of
/// unmarked remarks.
pub open spec fn init_fold(marks: Seq<bool>, n: int) -> (Seq<DisplayEntry>, nat)
    decreases n,
{
    if n <= 0 || n > marks.len() {
        (Seq::empty(), 0)
    } else {
        let (es, run) = init_fold(marks, n - 1);
        if marks[n - 1] {
            ((if run > 0 {
                es.push(DisplayEntry::Truncated(run as usize))
            } else {
                es
            }).push(DisplayEntry::Show((n - 1) as usize)), 0)
        } else {
            (es, run + 1)
        }
    }
}

/// The initial entries: each marked remark shown, each maximal run of unmarked remarks
/// folded into one truncation marker.
pub open spec fn initial_entries(marks: Seq<bool>) -> Seq<DisplayEntry> {
    let (es, run) = init_fold(marks, marks.len() as int);
    if run > 0 {
        es.push(DisplayEntry::Truncated(run as usize))
    } else {
        es
    }
}

// ---------------------------------------------------------------------------
// The widening pass
// ---------------------------------------------------------------------------

/// The number of `Show` entries immediately before position `k`.
pub open spec fn show_before(es: Seq<DisplayEntry>, k: int) -> nat
    decreases k,
{
    if k <= 0 || k > es.len() {
        0
    } else if es[k - 1] is Show {
        show_before(es, k - 1) + 1
    } else {
        0
    }
}

/// The number of `Show` entries immediately after position `k`.
pub open spec fn show_after(es: Seq<DisplayEntry>, k: int) -> nat
    decreases es.len() - k,
{
    if k < 0 || k + 1 >= es.len() {
        0
    } else if es[k + 1] is Show {
        show_after(es, k + 1) + 1
    } else {
        0
    }
}

/// The index after the last remark shown in `es`, or 0.
pub open spec fn next_after_show(es: Seq<DisplayEntry>) -> int
    decreases es.len(),
{
    if es.len() == 0 {
        0
    } else {
        match es.last() {
            DisplayEntry::Show(i) => i + 1,
            DisplayEntry::Truncated(_) => next_after_show(es.drop_last()),
        }
    }
}

/// `Show` entries for the `n` remarks from `start` on.
pub open spec fn shows(start: int, n: int) -> Seq<DisplayEntry> {
    Seq::new(n as nat, |j: int| DisplayEntry::Show((start + j) as usize))
}

/// How many remarks a truncation marker must give up so that `MIN_CONTEXT` shown remarks
/// precede and follow it: `(before, after)`.
pub open spec fn needs(es: Seq<DisplayEntry>, k: int) -> (int, int) {
    let b = show_before(es, k);
    let a = show_after(es, k);
    (if b < MIN_CONTEXT {
        MIN_CONTEXT - b
    } else {
        0
    }, if a < MIN_CONTEXT {
        MIN_CONTEXT - a
    } else {
        0
    })
}

/// One widening pass over the first `k` entries of `es`: shown remarks are kept; a
/// truncation marker with too few shown neighbours is replaced by the remarks it needs
/// to show on each side (or entirely, if it has no more than that). Returns the new
/// entries and whether anything changed.
pub open spec fn pass_fold(es: Seq<DisplayEntry>, k: int) -> (Seq<DisplayEntry>, bool)
    decreases k,
{
    if k <= 0 || k > es.len() {
        (Seq::empty(), false)
    } else {
        let (out, changed) = pass_fold(es, k - 1);
        match es[k - 1] {
            DisplayEntry::Show(i) => (out.push(DisplayEntry::Show(i)), changed),
            DisplayEntry::Truncated(n) => {
                let (nb, na) = needs(es, k - 1);
                let prev = next_after_show(out);
                if nb + na >= n {
                    (out + shows(prev, n as int), true)
                } else if nb + na > 0 {
                    (out + shows(prev, nb) + seq![DisplayEntry::Truncated((n - nb - na) as usize)]
                        + shows(prev + n - na, na), true)
                } else {
                    (out.push(DisplayEntry::Truncated(n)), changed)
                }
            },
        }
    }
}

/// One widening pass over all entries.
pub open spec fn pass(es: Seq<DisplayEntry>) -> (Seq<DisplayEntry>, bool) {
    pass_fold(es, es.len() as int)
}

/// Widening passes repeated until nothing changes (at most `fuel` passes).
pub open spec fn widen(es: Seq<DisplayEntry>, fuel: nat) -> Seq<DisplayEntry>
    decreases fuel,
{
    if fuel == 0 {
        es
    } else {
        let (next, changed) = pass(es);
        if changed {
            widen(next, (fuel - 1) as nat)
        } else {
            es
        }
    }
}

/// The display entries for a document of `count` remarks whose remarks at the indices
/// `corr` have correspondences.
pub open spec fn spec_display_entries(count: int, corr: Seq<usize>) -> Seq<DisplayEntry> {
    if count <= 0 {
        Seq::empty()
    } else {
        widen(initial_entries(Seq::new(count as nat, |i: int| must_show(count, corr, i))), (count + 1) as nat)
    }
}


// ---------------------------------------------------------------------------
// Properties of the passes
// ---------------------------------------------------------------------------

/// Every prefix of entries that cover `0..c` covers a prefix of the remarks, and no
/// more remarks are hidden than covered.
pub proof fn lemma_prefix(es: Seq<DisplayEntry>)
    requires
        part_end(es) is Some,
    ensures
        part_end(es).unwrap() >= 0,
        hidden_total(es) <= part_end(es).unwrap(),
        forall|k: int|
            0 <= k <= es.len() ==> (#[trigger] part_end(es.take(k))) is Some && part_end(
                es.take(k),
            ).unwrap() <= part_end(es).unwrap(),
    decreases es.len(),
{
    if es.len() == 0 {
        assert(es.take(0) =~= es);
    } else {
        let d = es.drop_last();
        lemma_prefix(d);
        assert forall|k: int| 0 <= k <= es.len() implies (#[trigger] part_end(es.take(k))) is Some
            && part_end(es.take(k)).unwrap() <= part_end(es).unwrap() by {
            if k == es.len() {
                assert(es.take(k) =~= es);
            } else {
                assert(es.take(k) =~= d.take(k));
            }
        }
    }
}

/// Appending shown remarks that continue the covered prefix extends it.
proof fn lemma_append_shows(s: Seq<DisplayEntry>, p: int, m: int)
    requires
        part_end(s) == Some(p),
        p >= 0,
        m >= 0,
        p + m <= usize::MAX,
    ensures
        part_end(s + shows(p, m)) == Some(p + m),
        hidden_total(s + shows(p, m)) == hidden_total(s),
        m > 0 ==> next_after_show(s + shows(p, m)) == p + m,
        m == 0 ==> s + shows(p, m) == s,
        forall|q: int| s.len() <= q < s.len() + m ==> (#[trigger] (s + shows(p, m))[q]) is Show,
        forall|q: int| 0 <= q < s.len() ==> (#[trigger] (s + shows(p, m))[q]) == s[q],
    decreases m,
{
    if m == 0 {
        assert(s + shows(p, m) =~= s);
    } else {
        lemma_append_shows(s, p, m - 1);
        let t = s + shows(p, m - 1);
        assert(s + shows(p, m) =~= t.push(DisplayEntry::Show((p + m - 1) as usize)));
        assert(t.push(DisplayEntry::Show((p + m - 1) as usize)).drop_last() =~= t);
    }
}

/// What holds of the first `k` entries that a widening pass produces.
pub open spec fn fold_facts(es: Seq<DisplayEntry>, k: int) -> bool {
    let (out, ch) = pass_fold(es, k);
    &&& part_end(out) == part_end(es.take(k))
    &&& adj_ok(out)
    &&& (k > 0 && es[k - 1] is Show ==> out.len() > 0 && out.last() == es[k - 1])
    &&& (k == 0 || es[k - 1] is Show) ==> next_after_show(out) == part_end(es.take(k)).unwrap()
    &&& hidden_total(out) + (if ch {
        1int
    } else {
        0int
    }) <= hidden_total(es.take(k))
    &&& !ch ==> out == es.take(k)
    &&& !ch ==> forall|j: int|
        0 <= j < k && #[trigger] es[j] is Truncated ==> needs(es, j) == (0int, 0int)
}

/// Positions of `s` below `n` that satisfy `trunc_ok` still do after appending.
proof fn lemma_adj_extend(s: Seq<DisplayEntry>, t: Seq<DisplayEntry>)
    requires
        adj_ok(s),
        s.len() <= t.len(),
        forall|q: int| 0 <= q < s.len() ==> t[q] == s[q],
        forall|q: int| s.len() <= q < t.len() ==> #[trigger] trunc_ok(t, q) || q == 0,
    ensures
        adj_ok(t),
{
    assert forall|q: int| 0 < q < t.len() implies #[trigger] trunc_ok(t, q) by {
        if q < s.len() {
            assert(trunc_ok(s, q));
            assert(t[q] == s[q]);
            assert(t[q - 1] == s[q - 1]);
        }
    }
}

/// The step of a pass over a shown remark.
proof fn lemma_step_show(es: Seq<DisplayEntry>, c: int, k: int)
    requires
        well_formed(es, c),
        c <= usize::MAX,
        0 < k <= es.len(),
        es[k - 1] is Show,
        fold_facts(es, k - 1),
    ensures
        fold_facts(es, k),
{
    lemma_prefix(es);
    let (out, ch) = pass_fold(es, k - 1);
    let tk = es.take(k);
    let tp = es.take(k - 1);
    assert(tk.drop_last() =~= tp);
    let o2 = out.push(es[k - 1]);
    assert(o2.drop_last() =~= out);
    assert(pass_fold(es, k).0 == o2);
    lemma_adj_extend(out, o2);
    if !ch {
        assert(o2 =~= tk);
    }
}

/// The step of a pass over a truncation marker.
#[verifier::rlimit(40)]
proof fn lemma_step_trunc(es: Seq<DisplayEntry>, c: int, k: int)
    requires
        well_formed(es, c),
        c <= usize::MAX,
        0 < k <= es.len(),
        es[k - 1] is Truncated,
        fold_facts(es, k - 1),
    ensures
        fold_facts(es, k),
{
    lemma_prefix(es);
    let (out, ch) = pass_fold(es, k - 1);
    let tk = es.take(k);
    let tp = es.take(k - 1);
    assert(tk.drop_last() =~= tp);
    assert(part_end(tk) is Some);
    let p = part_end(tp).unwrap();
    assert(p >= 0) by {
        lemma_prefix(tp);
    }
    if k - 1 > 0 {
        assert(trunc_ok(es, k - 1));
    }
    let n = es[k - 1]->Truncated_0;
    let prev = next_after_show(out);
    assert(prev == p);
    let (nb, na) = needs(es, k - 1);
    assert(part_end(tk) == Some(p + n));
    assert(p + n <= c);
    if nb + na >= n {
        lemma_append_shows(out, prev, n as int);
        let o2 = out + shows(prev, n as int);
        assert(pass_fold(es, k).0 == o2);
        lemma_adj_extend(out, o2);
    } else if nb + na > 0 {
        lemma_append_shows(out, prev, nb);
        let o1 = out + shows(prev, nb);
        let o2 = o1.push(DisplayEntry::Truncated((n - nb - na) as usize));
        assert(o2.drop_last() =~= o1);
        assert(o2[o1.len() as int] is Truncated);
        if nb == 0 {
            assert(o1 =~= out);
        }
        assert(trunc_ok(o2, o1.len() as int) || o1.len() == 0);
        lemma_adj_extend(out, o1);
        lemma_adj_extend(o1, o2);
        lemma_append_shows(o2, prev + n - na, na);
        let o3 = o2 + shows(prev + n - na, na);
        lemma_adj_extend(o2, o3);
        assert(o3 =~= out + shows(prev, nb) + seq![
            DisplayEntry::Truncated((n - nb - na) as usize),
        ] + shows(prev + n - na, na));
        assert(pass_fold(es, k).0 == o3);
    } else {
        let o2 = out.push(DisplayEntry::Truncated(n));
        assert(o2.drop_last() =~= out);
        assert(trunc_ok(o2, out.len() as int) || out.len() == 0);
        lemma_adj_extend(out, o2);
        assert(pass_fold(es, k).0 == o2);
        if !ch {
            assert(o2 =~= tk);
        }
    }
}

/// The facts about one widening pass, up to its first `k` entries.
proof fn lemma_pass_fold(es: Seq<DisplayEntry>, c: int, k: int)
    requires
        well_formed(es, c),
        c <= usize::MAX,
        0 <= k <= es.len(),
    ensures
        fold_facts(es, k),
    decreases k,
{
    if k == 0 {
        assert(es.take(0) =~= Seq::<DisplayEntry>::empty());
    } else {
        lemma_pass_fold(es, c, k - 1);
        if es[k - 1] is Show {
            lemma_step_show(es, c, k);
        } else {
            lemma_step_trunc(es, c, k);
        }
    }
}

/// One whole pass keeps the entries well formed; a pass that changes something hides
/// fewer remarks; a pass that changes nothing gives its input back, and then every
/// truncation marker has `MIN_CONTEXT` shown remarks on each side.
pub proof fn lemma_pass(es: Seq<DisplayEntry>, c: int)
    requires
        well_formed(es, c),
        c <= usize::MAX,
    ensures
        well_formed(pass(es).0, c),
        pass(es).1 ==> hidden_total(pass(es).0) < hidden_total(es),
        !pass(es).1 ==> pass(es).0 == es,
        !pass(es).1 ==> forall|j: int|
            0 <= j < es.len() && #[trigger] es[j] is Truncated ==> show_before(es, j)
                >= MIN_CONTEXT && show_after(es, j) >= MIN_CONTEXT,
{
    lemma_pass_fold(es, c, es.len() as int);
    assert(es.take(es.len() as int) =~= es);
    assert(fold_facts(es, es.len() as int));
    if !pass(es).1 {
        assert forall|j: int|
            0 <= j < es.len() && #[trigger] es[j] is Truncated implies show_before(es, j)
                >= MIN_CONTEXT && show_after(es, j) >= MIN_CONTEXT by {
            assert(needs(es, j) == (0int, 0int));
        }
    }
}

/// Repeating passes with enough fuel reaches entries that a pass leaves unchanged.
pub proof fn lemma_widen(es: Seq<DisplayEntry>, c: int, fuel: nat)
    requires
        well_formed(es, c),
        c <= usize::MAX,
        fuel > hidden_total(es),
    ensures
        well_formed(widen(es, fuel), c),
        !pass(widen(es, fuel)).1,
    decreases fuel,
{
    lemma_pass(es, c);
    if pass(es).1 {
        lemma_widen(pass(es).0, c, (fuel - 1) as nat);
    }
}

/// The initial entries cover the remarks in order with no adjacent markers.
proof fn lemma_init_fold(marks: Seq<bool>, n: int)
    requires
        0 <= n <= marks.len(),
        marks.len() <= usize::MAX,
    ensures
        ({
            let (es, run) = init_fold(marks, n);
            &&& part_end(es) == Some(n - run)
            &&& adj_ok(es)
            &&& (es.len() > 0 ==> es.last() is Show)
            &&& run <= n
        }),
    decreases n,
{
    if n > 0 {
        lemma_init_fold(marks, n - 1);
        let (es0, run0) = init_fold(marks, n - 1);
        if marks[n - 1] {
            let es1 = if run0 > 0 {
                es0.push(DisplayEntry::Truncated(run0 as usize))
            } else {
                es0
            };
            assert(es0.push(DisplayEntry::Truncated(run0 as usize)).drop_last() =~= es0);
            assert(part_end(es1) == Some(n - 1));
            let es2 = es1.push(DisplayEntry::Show((n - 1) as usize));
            assert(es2.drop_last() =~= es1);
            assert(es2.last() == DisplayEntry::Show((n - 1) as usize));
            assert(part_end(es2) == Some(n));
            assert(init_fold(marks, n) == (es2, 0nat));
            assert forall|q: int| 0 < q < es1.len() implies #[trigger] trunc_ok(es1, q) by {
                if q < es0.len() {
                    assert(trunc_ok(es0, q));
                }
            }
            assert forall|q: int| 0 < q < es2.len() implies #[trigger] trunc_ok(es2, q) by {
                if q < es1.len() {
                    assert(trunc_ok(es1, q));
                }
            }
        }
    }
}

/// The initial entries of `marks` are well formed.
pub proof fn lemma_initial(marks: Seq<bool>)
    requires
        marks.len() <= usize::MAX,
    ensures
        well_formed(initial_entries(marks), marks.len() as int),
{
    lemma_init_fold(marks, marks.len() as int);
    let (es, run) = init_fold(marks, marks.len() as int);
    if run > 0 {
        let e2 = es.push(DisplayEntry::Truncated(run as usize));
        assert(e2.drop_last() =~= es);
        assert forall|q: int| 0 < q < e2.len() implies #[trigger] trunc_ok(e2, q) by {
            if q < es.len() {
                assert(trunc_ok(es, q));
            }
        }
    }
}

/// `a` is a prefix of `b`.
spec fn prefix_of(a: Seq<DisplayEntry>, b: Seq<DisplayEntry>) -> bool {
    a.len() <= b.len() && forall|q: int| 0 <= q < a.len() ==> #[trigger] b[q] == a[q]
}

/// A remark shown in a prefix is shown in the whole.
proof fn lemma_shown_prefix(a: Seq<DisplayEntry>, b: Seq<DisplayEntry>, i: int)
    requires
        prefix_of(a, b),
        shown(a, i),
    ensures
        shown(b, i),
{
    let k = choose|k: int| 0 <= k < a.len() && a[k] == DisplayEntry::Show(i as usize) && 0 <= i;
    assert(b[k] == a[k]);
}

/// The marked remarks among the first `n` are shown by the initial entries so far.
proof fn lemma_init_shows(marks: Seq<bool>, n: int)
    requires
        0 <= n <= marks.len(),
    ensures
        forall|i: int| 0 <= i < n && #[trigger] marks[i] ==> shown(init_fold(marks, n).0, i),
    decreases n,
{
    if n > 0 {
        lemma_init_shows(marks, n - 1);
        let (es0, run0) = init_fold(marks, n - 1);
        if marks[n - 1] {
            let es1 = if run0 > 0 {
                es0.push(DisplayEntry::Truncated(run0 as usize))
            } else {
                es0
            };
            let es2 = es1.push(DisplayEntry::Show((n - 1) as usize));
            assert(init_fold(marks, n).0 == es2);
            assert(prefix_of(es0, es2));
            assert forall|i: int| 0 <= i < n && #[trigger] marks[i] implies shown(es2, i) by {
                if i < n - 1 {
                    lemma_shown_prefix(es0, es2, i);
                } else {
                    assert(es2[es1.len() as int] == DisplayEntry::Show(i as usize));
                }
            }
        }
    }
}

/// A widening pass over the first `k` entries keeps every remark they show.
proof fn lemma_pass_fold_shows(es: Seq<DisplayEntry>, k: int)
    requires
        0 <= k <= es.len(),
    ensures
        forall|i: int| 0 <= i && #[trigger] shown(es.take(k), i) ==> shown(pass_fold(es, k).0, i),
    decreases k,
{
    if k > 0 {
        lemma_pass_fold_shows(es, k - 1);
        let out = pass_fold(es, k - 1).0;
        let o2 = pass_fold(es, k).0;
        assert(prefix_of(out, o2)) by {
            match es[k - 1] {
                DisplayEntry::Show(i) => {},
                DisplayEntry::Truncated(n) => {
                    let (nb, na) = needs(es, k - 1);
                    let prev = next_after_show(out);
                    if nb + na >= n {
                    } else if nb + na > 0 {
                        assert(o2 == out + (shows(prev, nb) + seq![DisplayEntry::Truncated((n - nb - na) as usize)]
                            + shows(prev + n - na, na))) by {
                            assert(out + shows(prev, nb) + seq![DisplayEntry::Truncated((n - nb - na) as usize)]
                                + shows(prev + n - na, na) =~= out + (shows(prev, nb) + seq![
                                DisplayEntry::Truncated((n - nb - na) as usize),
                            ] + shows(prev + n - na, na)));
                        }
                    } else {
                    }
                },
            }
        }
        assert forall|i: int| 0 <= i && #[trigger] shown(es.take(k), i) implies shown(o2, i) by {
            let q = choose|q: int| 0 <= q < es.take(k).len() && es.take(k)[q] == DisplayEntry::Show(i as usize) && 0 <= i;
            if q < k - 1 {
                assert(es.take(k - 1)[q] == es.take(k)[q]);
                assert(shown(es.take(k - 1), i));
                lemma_shown_prefix(out, o2, i);
            } else {
                assert(es[k - 1] == DisplayEntry::Show(i as usize));
                assert(o2 == out.push(DisplayEntry::Show(i as usize)));
                assert(o2[out.len() as int] == DisplayEntry::Show(i as usize));
            }
        }
    }
}

/// Widening never hides a remark that was shown.
proof fn lemma_widen_shows(es: Seq<DisplayEntry>, fuel: nat, i: int)
    requires
        shown(es, i),
    ensures
        shown(widen(es, fuel), i),
    decreases fuel,
{
    if fuel > 0 {
        let (next, changed) = pass(es);
        if changed {
            lemma_pass_fold_shows(es, es.len() as int);
            assert(es.take(es.len() as int) =~= es);
            assert(shown(es.take(es.len() as int), i));
            lemma_widen_shows(next, (fuel - 1) as nat, i);
        }
    }
}

/// Every remark that must be shown (a remark with a correspondence and its context, and
/// the first and last `MIN_CONTEXT` remarks) is shown by the display entries.
pub proof fn lemma_must_show_is_shown(count: int, corr: Seq<usize>, i: int)
    requires
        0 <= i < count,
        must_show(count, corr, i),
    ensures
        shown(spec_display_entries(count, corr), i),
{
    let marks = Seq::new(count as nat, |j: int| must_show(count, corr, j));
    lemma_init_shows(marks, count);
    assert(marks[i]);
    let (es, run) = init_fold(marks, marks.len() as int);
    let init = initial_entries(marks);
    if run > 0 {
        assert(prefix_of(es, es.push(DisplayEntry::Truncated(run as usize))));
        lemma_shown_prefix(es, init, i);
    }
    lemma_widen_shows(init, (count + 1) as nat, i);
}

// ---------------------------------------------------------------------------
// Executable code
// ---------------------------------------------------------------------------

/// For each entry, the number of shown remarks immediately before it.
fn shows_before_each(es: &Vec<DisplayEntry>) -> (r: Vec<usize>)
    ensures
        r.len() == es.len(),
        forall|k: int| 0 <= k < es.len() ==> r[k] == show_before(es@, k),
{
    let mut r: Vec<usize> = Vec::new();
    let mut running: usize = 0;
    let mut i: usize = 0;
    while i < es.len()
        invariant
            i <= es.len(),
            r.len() == i,
            running == show_before(es@, i as int),
            running <= i,
            forall|k: int| 0 <= k < i ==> r[k] == show_before(es@, k),
        decreases es.len() - i,
    {
        r.push(running);
        running = match es[i] {
            DisplayEntry::Show(_) => running + 1,
            DisplayEntry::Truncated(_) => 0,
        };
        i = i + 1;
    }
    r
}

/// For each entry, the number of shown remarks immediately after it.
fn shows_after_each(es: &Vec<DisplayEntry>) -> (r: Vec<usize>)
    ensures
        r.len() == es.len(),
        forall|k: int| 0 <= k < es.len() ==> r[k] == show_after(es@, k),
{
    let mut r: Vec<usize> = Vec::new();
    let mut i: usize = 0;
    while i < es.len()
        invariant
            i <= es.len(),
            r.len() == i,
        decreases es.len() - i,
    {
        r.push(0);
        i = i + 1;
    }
    let mut running: usize = 0;
    let mut j: usize = es.len();
    while j > 0
        invariant
            j <= es.len(),
            r.len() == es.len(),
            j > 0 ==> running == show_after(es@, j - 1),
            running <= es.len() - j,
            forall|k: int| j <= k < es.len() ==> r[k] == show_after(es@, k),
        decreases j,
    {
        let i = j - 1;
        r.set(i, running);
        running = match es[i] {
            DisplayEntry::Show(_) => running + 1,
            DisplayEntry::Truncated(_) => 0,
        };
        j = i;
    }
    r
}

/// After appended `Show` entries, the next remark follows the last of them.
proof fn lemma_next_after_shows(s: Seq<DisplayEntry>, p: int, m: int)
    requires
        m > 0,
        p >= 0,
        p + m <= usize::MAX,
    ensures
        next_after_show(s + shows(p, m)) == p + m,
{
    let t = s + shows(p, m);
    assert(t.last() == DisplayEntry::Show((p + m - 1) as usize));
}

/// Appends `Show` entries for the `m` remarks from `start` on.
fn push_shows(out: &mut Vec<DisplayEntry>, start: usize, m: usize)
    requires
        start + m <= usize::MAX,
    ensures
        final(out)@ == old(out)@ + shows(start as int, m as int),
{
    let ghost o = old(out)@;
    let mut j: usize = 0;
    while j < m
        invariant
            j <= m,
            start + m <= usize::MAX,
            out@ == o + shows(start as int, j as int),
        decreases m - j,
    {
        out.push(DisplayEntry::Show(start + j));
        j = j + 1;
        assert(out@ =~= o + shows(start as int, j as int));
    }
}

/// Appends what replaces a truncation marker of `n` remarks that starts at remark
/// `prev` and needs `nb` shown remarks before and `na` after it; returns the index
/// after the last shown remark.
fn replace_marker(out: &mut Vec<DisplayEntry>, prev: usize, n: usize, nb: usize, na: usize) -> (r:
    usize)
    requires
        prev == next_after_show(old(out)@),
        prev + n <= usize::MAX,
        nb + na <= usize::MAX,
    ensures
        final(out)@ == (if nb + na >= n {
            old(out)@ + shows(prev as int, n as int)
        } else if nb + na > 0 {
            old(out)@ + shows(prev as int, nb as int) + seq![
                DisplayEntry::Truncated((n - nb - na) as usize),
            ] + shows(prev + n - na, na as int)
        } else {
            old(out)@.push(DisplayEntry::Truncated(n))
        }),
        r == next_after_show(final(out)@),
{
    let ghost o = old(out)@;
    let expand = nb + na;
    if expand >= n {
        push_shows(out, prev, n);
        if n > 0 {
            proof {
                lemma_next_after_shows(o, prev as int, n as int);
            }
            prev + n
        } else {
            assert(out@ =~= o);
            prev
        }
    } else if expand > 0 {
        push_shows(out, prev, nb);
        let ghost o1 = out@;
        let mut next = prev;
        if nb > 0 {
            proof {
                lemma_next_after_shows(o, prev as int, nb as int);
            }
            next = prev + nb;
        } else {
            assert(o1 =~= o);
        }
        out.push(DisplayEntry::Truncated(n - expand));
        let ghost o2 = out@;
        assert(o2.drop_last() =~= o1);
        let after_start = prev + n - na;
        push_shows(out, after_start, na);
        assert(out@ =~= o + shows(prev as int, nb as int) + seq![
            DisplayEntry::Truncated((n - nb - na) as usize),
        ] + shows(prev + n - na, na as int));
        if na > 0 {
            proof {
                lemma_next_after_shows(o2, after_start as int, na as int);
            }
            after_start + na
        } else {
            assert(out@ =~= o2);
            next
        }
    } else {
        out.push(DisplayEntry::Truncated(n));
        assert(out@.drop_last() =~= o);
        prev
    }
}

/// One widening pass; returns the new entries and whether anything changed.
fn widening_pass(es: &Vec<DisplayEntry>, Ghost(count): Ghost<int>) -> (r: (
    Vec<DisplayEntry>,
    bool,
))
    requires
        well_formed(es@, count),
        count <= usize::MAX,
    ensures
        r.0@ == pass(es@).0,
        r.1 == pass(es@).1,
{
    let before = shows_before_each(es);
    let after = shows_after_each(es);
    let mut out: Vec<DisplayEntry> = Vec::new();
    let mut changed = false;
    let mut next: usize = 0;
    let mut k: usize = 0;
    proof {
        lemma_prefix(es@);
    }
    while k < es.len()
        invariant
            k <= es.len(),
            well_formed(es@, count),
            count <= usize::MAX,
            before.len() == es.len(),
            after.len() == es.len(),
            forall|q: int| 0 <= q < es.len() ==> before[q] == show_before(es@, q),
            forall|q: int| 0 <= q < es.len() ==> after[q] == show_after(es@, q),
            out@ == pass_fold(es@, k as int).0,
            changed == pass_fold(es@, k as int).1,
            next == next_after_show(out@),
            forall|q: int|
                0 <= q <= es.len() ==> (#[trigger] part_end(es@.take(q))) is Some && part_end(
                    es@.take(q),
                ).unwrap() <= count,
        decreases es.len() - k,
    {
        proof {
            lemma_pass_fold(es@, count, k as int);
            if k > 0 {
                assert(trunc_ok(es@, k as int));
            }
            let tk = es@.take(k + 1);
            assert(tk.drop_last() =~= es@.take(k as int));
            assert(part_end(tk) is Some);
        }
        let ghost o = out@;
        match es[k] {
            DisplayEntry::Show(i) => {
                out.push(DisplayEntry::Show(i));
                proof {
                    assert(out@.drop_last() =~= o);
                }
                next = i + 1;
            },
            DisplayEntry::Truncated(n) => {
                let b = before[k];
                let a = after[k];
                let nb: usize = if b < MIN_CONTEXT {
                    MIN_CONTEXT - b
                } else {
                    0
                };
                let na: usize = if a < MIN_CONTEXT {
                    MIN_CONTEXT - a
                } else {
                    0
                };
                next = replace_marker(&mut out, next, n, nb, na);
                if nb + na > 0 {
                    changed = true;
                }
            },
        }
        k = k + 1;
    }
    proof {
        assert(es@.take(es.len() as int) =~= es@);
    }
    (out, changed)
}

/// Marks the remarks that must be shown.
fn must_show_marks(count: usize, has_corr: &[usize]) -> (marks: Vec<bool>)
    requires
        forall|k: int| 0 <= k < has_corr.len() ==> has_corr[k] <= count + MIN_CONTEXT,
    ensures
        marks@ == Seq::new(count as nat, |i: int| must_show(count as int, has_corr@, i)),
{
    let mut marks: Vec<bool> = Vec::new();
    let mut i: usize = 0;
    while i < count
        invariant
            i <= count,
            marks.len() == i,
            forall|q: int| 0 <= q < i ==> !marks[q],
        decreases count - i,
    {
        marks.push(false);
        i = i + 1;
    }
    let mut j: usize = 0;
    while j < has_corr.len()
        invariant
            j <= has_corr.len(),
            marks.len() == count,
            forall|k: int| 0 <= k < has_corr.len() ==> has_corr[k] <= count + MIN_CONTEXT,
            forall|q: int|
                0 <= q < count ==> (marks[q] <==> exists|k: int|
                    0 <= k < j && #[trigger] in_window(count as int, has_corr@[k] as int, q)),
        decreases has_corr.len() - j,
    {
        let idx = has_corr[j];
        let start: usize = if idx >= MIN_CONTEXT {
            idx - MIN_CONTEXT
        } else {
            0
        };
        let end: usize = if idx < count && count - idx >= MIN_CONTEXT + 1 {
            idx + MIN_CONTEXT + 1
        } else {
            count
        };
        let mut p: usize = start;
        while p < end
            invariant
                start <= p <= end,
                end <= count,
                marks.len() == count,
                forall|q: int|
                    0 <= q < count ==> (marks[q] <==> (exists|k: int|
                        0 <= k < j && #[trigger] in_window(count as int, has_corr@[k] as int, q))
                        || (start <= q < p)),
            decreases end - p,
        {
            marks.set(p, true);
            p = p + 1;
        }
        proof {
            assert forall|q: int| 0 <= q < count implies (marks[q] <==> exists|k: int|
                0 <= k < j + 1 && #[trigger] in_window(count as int, has_corr@[k] as int, q)) by {
                if start <= q < end {
                    assert(in_window(count as int, has_corr@[j as int] as int, q));
                }
                if exists|k: int|
                    0 <= k < j && #[trigger] in_window(count as int, has_corr@[k] as int, q) {
                    let k = choose|k: int|
                        0 <= k < j && #[trigger] in_window(count as int, has_corr@[k] as int, q);
                    assert(in_window(count as int, has_corr@[k] as int, q));
                }
                if exists|k: int|
                    0 <= k < j + 1 && #[trigger] in_window(count as int, has_corr@[k] as int, q) {
                    let k = choose|k: int|
                        0 <= k < j + 1 && #[trigger] in_window(
                            count as int,
                            has_corr@[k] as int,
                            q,
                        );
                    if k == j {
                        assert(start <= q < end);
                    }
                }
            }
        }
        j = j + 1;
    }
    let head: usize = if MIN_CONTEXT < count {
        MIN_CONTEXT
    } else {
        count
    };
    let mut p: usize = 0;
    while p < head
        invariant
            p <= head,
            head <= count,
            marks.len() == count,
            forall|q: int|
                0 <= q < count ==> (marks[q] <==> (exists|k: int|
                    0 <= k < has_corr.len() && #[trigger] in_window(
                        count as int,
                        has_corr@[k] as int,
                        q,
                    )) || q < p),
        decreases head - p,
    {
        marks.set(p, true);
        p = p + 1;
    }
    let tail: usize = if count >= MIN_CONTEXT {
        count - MIN_CONTEXT
    } else {
        0
    };
    let mut p: usize = tail;
    while p < count
        invariant
            tail <= p <= count,
            marks.len() == count,
            forall|q: int|
                0 <= q < count ==> (marks[q] <==> (exists|k: int|
                    0 <= k < has_corr.len() && #[trigger] in_window(
                        count as int,
                        has_corr@[k] as int,
                        q,
                    )) || q < head || (tail <= q < p)),
        decreases count - p,
    {
        marks.set(p, true);
        p = p + 1;
    }
    assert(marks@ =~= Seq::new(count as nat, |i: int| must_show(count as int, has_corr@, i)));
    marks
}

/// The entries before widening: each marked remark shown, each run of unmarked
/// remarks folded into one marker.
fn initial_entries_exec(marks: &Vec<bool>) -> (r: Vec<DisplayEntry>)
    ensures
        r@ == initial_entries(marks@),
{
    let mut entries: Vec<DisplayEntry> = Vec::new();
    let mut run: usize = 0;
    let mut i: usize = 0;
    while i < marks.len()
        invariant
            i <= marks.len(),
            run <= i,
            entries@ == init_fold(marks@, i as int).0,
            run == init_fold(marks@, i as int).1,
        decreases marks.len() - i,
    {
        if marks[i] {
            if run > 0 {
                entries.push(DisplayEntry::Truncated(run));
                run = 0;
            }
            entries.push(DisplayEntry::Show(i));
        } else {
            run = run + 1;
        }
        i = i + 1;
    }
    if run > 0 {
        entries.push(DisplayEntry::Truncated(run));
    }
    entries
}

/// Which remarks of a source document of `count` remarks a diagram shows, and where it
/// folds runs of remarks into truncation markers. The remarks at the indices
/// `has_corr` have correspondences; each is shown with `MIN_CONTEXT` remarks around it,
/// as are the first and last `MIN_CONTEXT` remarks. Every other run becomes one marker,
/// and markers are then narrowed until each has `MIN_CONTEXT` shown remarks on both
/// sides (or disappears).
pub fn compute_display_entries(count: usize, has_corr: &[usize]) -> (r: Vec<DisplayEntry>)
    requires
        forall|k: int| 0 <= k < has_corr.len() ==> has_corr[k] <= count + MIN_CONTEXT,
    ensures
        r@ == spec_display_entries(count as int, has_corr@),
        well_formed(r@, count as int),
        forall|k: int|
            0 <= k < r@.len() && #[trigger] r@[k] is Truncated ==> show_before(r@, k)
                >= MIN_CONTEXT && show_after(r@, k) >= MIN_CONTEXT,
        forall|i: int| 0 <= i < count && #[trigger] must_show(count as int, has_corr@, i) ==> shown(r@, i),
{
    proof {
        assert forall|i: int| 0 <= i < count && #[trigger] must_show(count as int, has_corr@, i) implies shown(
            spec_display_entries(count as int, has_corr@),
            i,
        ) by {
            lemma_must_show_is_shown(count as int, has_corr@, i);
        }
    }
    if count == 0 {
        return Vec::new();
    }
    let marks = must_show_marks(count, has_corr);
    let mut entries = initial_entries_exec(&marks);
    let ghost target = spec_display_entries(count as int, has_corr@);
    let ghost mut fuel: nat = (count + 1) as nat;
    proof {
        lemma_initial(marks@);
        lemma_prefix(entries@);
    }
    loop
        invariant
            well_formed(entries@, count as int),
            widen(entries@, fuel) == target,
            fuel > hidden_total(entries@),
        ensures
            entries@ == target,
            well_formed(entries@, count as int),
            !pass(entries@).1,
        decreases hidden_total(entries@),
    {
        proof {
            lemma_pass(entries@, count as int);
        }
        let ghost before_pass = entries@;
        let (new_entries, changed) = widening_pass(&entries, Ghost(count as int));
        entries = new_entries;
        if !changed {
            proof {
                assert(entries@ == before_pass);
            }
            break;
        }
        proof {
            fuel = (fuel - 1) as nat;
        }
    }
    proof {
        lemma_pass(entries@, count as int);
    }
    entries
}
} // verus!
