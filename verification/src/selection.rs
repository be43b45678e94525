//! Which installers are shown as runnable scripts, and in what order.
//!
//! Of the runnable installers that share a label only the last one in the
//! release is kept; the kept installers are ordered by label.

use crate::label_order::{
    label_precedes, lemma_precedes_asymmetric, lemma_precedes_irreflexive, lemma_precedes_total,
    lemma_precedes_transitive, precedes,
};
use crate::model::{DisplayPreference, Installer};
use vstd::prelude::*;

verus! {

/// Position `j` holds a runnable installer.
pub open spec fn runnable_at(installers: Seq<Installer>, j: int) -> bool {
    0 <= j < installers.len() && installers[j].runnable()
}

/// The label of the installer at position `j`.
pub open spec fn label_at(installers: Seq<Installer>, j: int) -> Seq<char> {
    installers[j].label@
}

/// Position `j` holds a runnable installer, and no runnable installer after
/// it carries the same label.
pub open spec fn survives(installers: Seq<Installer>, j: int) -> bool {
    &&& runnable_at(installers, j)
    &&& forall|k: int|
        j < k && #[trigger] runnable_at(installers, k) ==> label_at(installers, k) != label_at(
            installers,
            j,
        )
}

/// The labels at the positions `picks` rise strictly from each entry to the next.
pub open spec fn ascending(installers: Seq<Installer>, picks: Seq<int>) -> bool {
    forall|i: int, j: int|
        0 <= i < j < picks.len() ==> precedes(
            label_at(installers, #[trigger] picks[i]),
            label_at(installers, #[trigger] picks[j]),
        )
}

/// `picks` lists exactly the surviving positions of `installers`, ordered by label.
pub open spec fn is_selection(installers: Seq<Installer>, picks: Seq<int>) -> bool {
    &&& forall|i: int| 0 <= i < picks.len() ==> survives(installers, #[trigger] picks[i])
    &&& ascending(installers, picks)
    &&& forall|j: int| #[trigger] survives(installers, j) ==> picks.contains(j)
}

/// The positions held in a vector of indices, as mathematical integers.
pub open spec fn positions(picks: Seq<usize>) -> Seq<int> {
    picks.map_values(|p: usize| p as int)
}

/// The positions that hold a runnable installer.
pub open spec fn runnable_positions(installers: Seq<Installer>) -> Set<int> {
    Set::new(|j: int| runnable_at(installers, j))
}

/// No two runnable installers carry the same label.
pub open spec fn runnable_labels_distinct(installers: Seq<Installer>) -> bool {
    forall|a: int, b: int|
        #![trigger runnable_at(installers, a), runnable_at(installers, b)]
        runnable_at(installers, a) && runnable_at(installers, b) && a != b ==> label_at(
            installers,
            a,
        ) != label_at(installers, b)
}

/// Selects the installers to show as runnable scripts: the positions of the
/// surviving installers of `installers`, ordered by label.
pub fn select_runnable(installers: &Vec<Installer>) -> (picks: Vec<usize>)
    ensures
        is_selection(installers@, positions(picks@)),
{
    let mut picks: Vec<usize> = Vec::new();
    let mut n: usize = 0;
    while n < installers.len()
        invariant
            n <= installers.len(),
            forall|i: int| 0 <= i < picks.len() ==> #[trigger] picks[i] < n,
            is_selection(installers@.take(n as int), positions(picks@)),
        decreases installers.len() - n,
    {
        let ghost chosen = positions(picks@);
        if installers[n].is_runnable() {
            let mut p: usize = 0;
            while p < picks.len() && label_precedes(
                &installers[picks[p]].label,
                &installers[n].label,
            )
                invariant
                    n < installers.len(),
                    p <= picks.len(),
                    forall|i: int| 0 <= i < picks.len() ==> #[trigger] picks[i] < n,
                    chosen == positions(picks@),
                    is_selection(installers@.take(n as int), chosen),
                    forall|i: int|
                        0 <= i < p ==> precedes(
                            label_at(installers@, #[trigger] chosen[i]),
                            label_at(installers@, n as int),
                        ),
                decreases picks.len() - p,
            {
                p += 1;
            }
            if p < picks.len() && installers[picks[p]].label == installers[n].label {
                picks.set(p, n);
                proof {
                    lemma_replace(installers@, n as int, chosen, p as int);
                    assert(positions(picks@) =~= chosen.update(p as int, n as int));
                }
            } else {
                proof {
                    if p < picks.len() {
                        lemma_precedes_total(
                            label_at(installers@, chosen[p as int]),
                            label_at(installers@, n as int),
                        );
                    }
                    lemma_insert(installers@, n as int, chosen, p as int);
                }
                picks.insert(p, n);
                proof {
                    assert(positions(picks@) =~= chosen.insert(p as int, n as int));
                }
            }
        } else {
            proof {
                lemma_skip(installers@, n as int, chosen);
            }
        }
        n += 1;
    }
    proof {
        assert(installers@.take(n as int) =~= installers@);
    }
    picks
}

/// Two different entries of an ascending list carry different labels.
proof fn lemma_entries_differ(installers: Seq<Installer>, picks: Seq<int>, i: int, j: int)
    requires
        ascending(installers, picks),
        0 <= i < picks.len(),
        0 <= j < picks.len(),
        i != j,
    ensures
        label_at(installers, picks[i]) != label_at(installers, picks[j]),
{
    lemma_precedes_irreflexive(label_at(installers, picks[i]));
    if i < j {
        assert(precedes(label_at(installers, picks[i]), label_at(installers, picks[j])));
    } else {
        assert(precedes(label_at(installers, picks[j]), label_at(installers, picks[i])));
    }
}

/// A survivor among the first `n` installers stays one when installer `n`
/// joins, unless that installer is runnable and carries the same label.
proof fn lemma_carry_over(installers: Seq<Installer>, n: int, j: int)
    requires
        0 <= n < installers.len(),
        survives(installers.take(n), j),
        installers[n].runnable() ==> label_at(installers, j) != label_at(installers, n),
    ensures
        survives(installers.take(n + 1), j),
        label_at(installers.take(n + 1), j) == label_at(installers, j),
        label_at(installers.take(n), j) == label_at(installers, j),
{
    let before = installers.take(n);
    let after = installers.take(n + 1);
    assert(runnable_at(before, j));
    assert forall|k: int| j < k && #[trigger] runnable_at(after, k) implies label_at(after, k)
        != label_at(after, j) by {
        if k < n {
            assert(runnable_at(before, k));
        }
    }
}

/// A survivor among the first `n + 1` installers other than installer `n`
/// was one among the first `n` already, and its label is not that of a
/// runnable installer `n`.
proof fn lemma_carry_back(installers: Seq<Installer>, n: int, j: int)
    requires
        0 <= n < installers.len(),
        survives(installers.take(n + 1), j),
        j != n,
    ensures
        survives(installers.take(n), j),
        installers[n].runnable() ==> label_at(installers, j) != label_at(installers, n),
{
    let before = installers.take(n);
    let after = installers.take(n + 1);
    assert(runnable_at(after, j));
    assert forall|k: int| j < k && #[trigger] runnable_at(before, k) implies label_at(before, k)
        != label_at(before, j) by {
        assert(runnable_at(after, k));
    }
    if installers[n].runnable() {
        assert(runnable_at(after, n));
    }
}

/// A runnable installer survives among the installers up to itself.
proof fn lemma_newcomer_survives(installers: Seq<Installer>, n: int)
    requires
        0 <= n < installers.len(),
        installers[n].runnable(),
    ensures
        survives(installers.take(n + 1), n),
        label_at(installers.take(n + 1), n) == label_at(installers, n),
{
    assert(runnable_at(installers.take(n + 1), n));
}

/// Installer `n` is not runnable: the selection of the first `n` installers
/// is that of the first `n + 1` too.
proof fn lemma_skip(installers: Seq<Installer>, n: int, picks: Seq<int>)
    requires
        0 <= n < installers.len(),
        !installers[n].runnable(),
        is_selection(installers.take(n), picks),
    ensures
        is_selection(installers.take(n + 1), picks),
{
    let before = installers.take(n);
    let after = installers.take(n + 1);
    assert forall|i: int| 0 <= i < picks.len() implies survives(after, #[trigger] picks[i])
        && label_at(after, picks[i]) == label_at(before, picks[i]) by {
        assert(survives(before, picks[i]));
        lemma_carry_over(installers, n, picks[i]);
    }
    assert forall|i: int, j: int| 0 <= i < j < picks.len() implies precedes(
        label_at(after, #[trigger] picks[i]),
        label_at(after, #[trigger] picks[j]),
    ) by {
        assert(precedes(label_at(before, picks[i]), label_at(before, picks[j])));
    }
    assert forall|j: int| #[trigger] survives(after, j) implies picks.contains(j) by {
        assert(runnable_at(after, j));
        lemma_carry_back(installers, n, j);
    }
}

/// Installer `n` is runnable and entry `p` carries its label: installer `n`
/// takes the place of that entry.
proof fn lemma_replace(installers: Seq<Installer>, n: int, picks: Seq<int>, p: int)
    requires
        0 <= n < installers.len(),
        installers[n].runnable(),
        is_selection(installers.take(n), picks),
        0 <= p < picks.len(),
        label_at(installers, picks[p]) == label_at(installers, n),
    ensures
        is_selection(installers.take(n + 1), picks.update(p, n)),
{
    let before = installers.take(n);
    let after = installers.take(n + 1);
    let next = picks.update(p, n);
    lemma_newcomer_survives(installers, n);
    assert(survives(before, picks[p]));
    assert forall|i: int| 0 <= i < picks.len() && i != p implies survives(
        after,
        #[trigger] picks[i],
    ) && label_at(after, picks[i]) == label_at(before, picks[i]) by {
        assert(survives(before, picks[i]));
        lemma_entries_differ(before, picks, i, p);
        lemma_carry_over(installers, n, picks[i]);
    }
    assert forall|i: int| 0 <= i < next.len() implies survives(after, #[trigger] next[i]) by {
        if i != p {
            assert(next[i] == picks[i]);
        }
    }
    assert forall|i: int, j: int| 0 <= i < j < next.len() implies precedes(
        label_at(after, #[trigger] next[i]),
        label_at(after, #[trigger] next[j]),
    ) by {
        assert(precedes(label_at(before, picks[i]), label_at(before, picks[j])));
        assert(i != p ==> next[i] == picks[i]);
        assert(j != p ==> next[j] == picks[j]);
    }
    assert forall|j: int| #[trigger] survives(after, j) implies next.contains(j) by {
        if j == n {
            assert(next[p] == j);
        } else {
            lemma_carry_back(installers, n, j);
            let i = choose|i: int| 0 <= i < picks.len() && picks[i] == j;
            assert(i != p);
            assert(next[i] == j);
        }
    }
}

/// Installer `n` is runnable and its label falls between entry `p - 1` and
/// entry `p`: installer `n` becomes entry `p`, and the entries from `p` on
/// move up by one.
proof fn lemma_insert(installers: Seq<Installer>, n: int, picks: Seq<int>, p: int)
    requires
        0 <= n < installers.len(),
        installers[n].runnable(),
        is_selection(installers.take(n), picks),
        0 <= p <= picks.len(),
        forall|i: int|
            0 <= i < p ==> precedes(
                label_at(installers, #[trigger] picks[i]),
                label_at(installers, n),
            ),
        p < picks.len() ==> precedes(label_at(installers, n), label_at(installers, picks[p])),
    ensures
        is_selection(installers.take(n + 1), picks.insert(p, n)),
{
    let before = installers.take(n);
    let after = installers.take(n + 1);
    let next = picks.insert(p, n);
    let fresh = label_at(installers, n);
    lemma_newcomer_survives(installers, n);
    lemma_precedes_irreflexive(fresh);
    assert forall|i: int| p <= i < picks.len() implies precedes(
        fresh,
        label_at(installers, #[trigger] picks[i]),
    ) by {
        assert(survives(before, picks[p]));
        assert(survives(before, picks[i]));
        if i > p {
            assert(precedes(label_at(before, picks[p]), label_at(before, picks[i])));
            lemma_precedes_transitive(
                fresh,
                label_at(installers, picks[p]),
                label_at(installers, picks[i]),
            );
        }
    }
    assert forall|i: int| 0 <= i < picks.len() implies survives(after, #[trigger] picks[i])
        && label_at(after, picks[i]) == label_at(installers, picks[i]) && label_at(
        before,
        picks[i],
    ) == label_at(installers, picks[i]) by {
        assert(survives(before, picks[i]));
        lemma_carry_over(installers, n, picks[i]);
    }
    assert forall|i: int| 0 <= i < next.len() implies survives(after, #[trigger] next[i]) by {
        if i < p {
            assert(next[i] == picks[i]);
        } else if i > p {
            assert(next[i] == picks[i - 1]);
        }
    }
    assert forall|i: int, j: int| 0 <= i < j < next.len() implies precedes(
        label_at(after, #[trigger] next[i]),
        label_at(after, #[trigger] next[j]),
    ) by {
        let from_i = if i < p { i } else { i - 1 };
        let from_j = if j < p { j } else { j - 1 };
        if i != p {
            assert(next[i] == picks[from_i]);
        }
        if j != p {
            assert(next[j] == picks[from_j]);
        }
        if i != p && j != p {
            assert(precedes(label_at(before, picks[from_i]), label_at(before, picks[from_j])));
        }
    }
    assert forall|j: int| #[trigger] survives(after, j) implies next.contains(j) by {
        if j == n {
            assert(next[p] == j);
        } else {
            lemma_carry_back(installers, n, j);
            let i = choose|i: int| 0 <= i < picks.len() && picks[i] == j;
            if i < p {
                assert(next[i] == j);
            } else {
                assert(next[i + 1] == j);
            }
        }
    }
}

/// An ascending list holds no position twice.
proof fn lemma_ascending_no_duplicates(installers: Seq<Installer>, picks: Seq<int>)
    requires
        ascending(installers, picks),
    ensures
        picks.no_duplicates(),
{
    assert forall|i: int, j: int| 0 <= i < picks.len() && 0 <= j < picks.len() && i
        != j implies picks[i] != picks[j] by {
        lemma_entries_differ(installers, picks, i, j);
    }
}

/// Two ascending lists of the same positions are the same list.
proof fn lemma_ascending_same_members(installers: Seq<Installer>, a: Seq<int>, b: Seq<int>)
    requires
        ascending(installers, a),
        ascending(installers, b),
        forall|x: int| a.contains(x) <==> b.contains(x),
    ensures
        a == b,
    decreases a.len(),
{
    if a.len() == 0 {
        if b.len() > 0 {
            assert(b.contains(b[0]));
        }
        assert(a =~= b);
    } else {
        assert(a.contains(a.last()));
        assert(b.len() > 0);
        assert(b.contains(b.last()));
        let i = choose|i: int| 0 <= i < b.len() && b[i] == a.last();
        let j = choose|j: int| 0 <= j < a.len() && a[j] == b.last();
        if i < b.len() - 1 {
            assert(precedes(label_at(installers, b[i]), label_at(installers, b[b.len() - 1])));
            if j < a.len() - 1 {
                assert(precedes(label_at(installers, a[j]), label_at(installers, a[a.len() - 1])));
                lemma_precedes_asymmetric(
                    label_at(installers, a.last()),
                    label_at(installers, b.last()),
                );
            } else {
                lemma_precedes_irreflexive(label_at(installers, a.last()));
            }
        }
        assert(a.last() == b.last());
        let a_rest = a.drop_last();
        let b_rest = b.drop_last();
        lemma_ascending_no_duplicates(installers, a);
        lemma_ascending_no_duplicates(installers, b);
        assert forall|x: int| a_rest.contains(x) <==> b_rest.contains(x) by {
            if a_rest.contains(x) {
                let k = choose|k: int| 0 <= k < a_rest.len() && a_rest[k] == x;
                assert(a[k] == x);
                assert(b.contains(x));
                let m = choose|m: int| 0 <= m < b.len() && b[m] == x;
                assert(b_rest[m] == x);
            }
            if b_rest.contains(x) {
                let k = choose|k: int| 0 <= k < b_rest.len() && b_rest[k] == x;
                assert(b[k] == x);
                assert(a.contains(x));
                let m = choose|m: int| 0 <= m < a.len() && a[m] == x;
                assert(a_rest[m] == x);
            }
        }
        assert forall|i: int, j: int| 0 <= i < j < a_rest.len() implies precedes(
            label_at(installers, #[trigger] a_rest[i]),
            label_at(installers, #[trigger] a_rest[j]),
        ) by {
            assert(precedes(label_at(installers, a[i]), label_at(installers, a[j])));
        }
        assert forall|i: int, j: int| 0 <= i < j < b_rest.len() implies precedes(
            label_at(installers, #[trigger] b_rest[i]),
            label_at(installers, #[trigger] b_rest[j]),
        ) by {
            assert(precedes(label_at(installers, b[i]), label_at(installers, b[j])));
        }
        lemma_ascending_same_members(installers, a_rest, b_rest);
        assert(a =~= a_rest.push(a.last()));
        assert(b =~= b_rest.push(b.last()));
    }
}

/// A release has one selection only: `is_selection` pins every entry.
pub proof fn lemma_selection_unique(installers: Seq<Installer>, a: Seq<int>, b: Seq<int>)
    requires
        is_selection(installers, a),
        is_selection(installers, b),
    ensures
        a == b,
{
    assert forall|x: int| a.contains(x) <==> b.contains(x) by {
        if a.contains(x) {
            let i = choose|i: int| 0 <= i < a.len() && a[i] == x;
            assert(survives(installers, a[i]));
        }
        if b.contains(x) {
            let i = choose|i: int| 0 <= i < b.len() && b[i] == x;
            assert(survives(installers, b[i]));
        }
    }
    lemma_ascending_same_members(installers, a, b);
}

/// A hidden installer is never selected, whatever its method.
pub proof fn lemma_hidden_never_selected(installers: Seq<Installer>, picks: Seq<int>, j: int)
    requires
        is_selection(installers, picks),
        0 <= j < installers.len(),
        installers[j].display == DisplayPreference::Hidden,
    ensures
        !picks.contains(j),
{
    if picks.contains(j) {
        let i = choose|i: int| 0 <= i < picks.len() && picks[i] == j;
        assert(survives(installers, picks[i]));
    }
}

/// An installer that does not install by running a file is never selected.
pub proof fn lemma_only_run_selected(installers: Seq<Installer>, picks: Seq<int>, j: int)
    requires
        is_selection(installers, picks),
        0 <= j < installers.len(),
        !(installers[j].method is Run),
    ensures
        !picks.contains(j),
{
    if picks.contains(j) {
        let i = choose|i: int| 0 <= i < picks.len() && picks[i] == j;
        assert(survives(installers, picks[i]));
    }
}

/// Where no two runnable installers share a label, every runnable installer
/// is selected: the selection is as long as there are runnable installers.
pub proof fn lemma_distinct_labels_all_selected(installers: Seq<Installer>, picks: Seq<int>)
    requires
        is_selection(installers, picks),
        runnable_labels_distinct(installers),
    ensures
        picks.len() == runnable_positions(installers).len(),
        forall|j: int| runnable_at(installers, j) ==> picks.contains(j),
{
    assert forall|j: int| runnable_at(installers, j) implies picks.contains(j) by {
        assert(survives(installers, j));
    }
    assert forall|j: int| picks.contains(j) implies runnable_at(installers, j) by {
        let i = choose|i: int| 0 <= i < picks.len() && picks[i] == j;
        assert(survives(installers, picks[i]));
    }
    assert(picks.to_set() =~= runnable_positions(installers));
    lemma_ascending_no_duplicates(installers, picks);
    picks.unique_seq_to_set();
}

/// The last runnable installer that carries the label of the runnable
/// installer at position `a`.
proof fn lemma_last_with_label(installers: Seq<Installer>, a: int) -> (last: int)
    requires
        runnable_at(installers, a),
    ensures
        survives(installers, last),
        label_at(installers, last) == label_at(installers, a),
    decreases installers.len() - a,
{
    if exists|k: int| a < k && runnable_at(installers, k) && label_at(installers, k) == label_at(
        installers,
        a,
    ) {
        let k = choose|k: int| a < k && runnable_at(installers, k) && label_at(installers, k)
            == label_at(installers, a);
        lemma_last_with_label(installers, k)
    } else {
        a
    }
}

/// The label of a runnable installer is shown exactly once, however many
/// runnable installers carry it: entry `at` holds it, and no other entry does.
pub proof fn lemma_one_entry_per_label(installers: Seq<Installer>, picks: Seq<int>, a: int) -> (at:
    int)
    requires
        is_selection(installers, picks),
        runnable_at(installers, a),
    ensures
        0 <= at < picks.len(),
        label_at(installers, picks[at]) == label_at(installers, a),
        forall|i: int|
            0 <= i < picks.len() && label_at(installers, #[trigger] picks[i]) == label_at(
                installers,
                a,
            ) ==> i == at,
{
    let last = lemma_last_with_label(installers, a);
    assert(picks.contains(last));
    let at = choose|i: int| 0 <= i < picks.len() && picks[i] == last;
    assert forall|i: int|
        0 <= i < picks.len() && label_at(installers, #[trigger] picks[i]) == label_at(
            installers,
            a,
        ) implies i == at by {
        if i != at {
            lemma_entries_differ(installers, picks, i, at);
        }
    }
    at
}

} // verus!
