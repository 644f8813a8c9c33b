//! The mathematical model of chain construction: sequences of abstract
//! token values, and the counts a transition table is made of.

use vstd::prelude::*;

verus! {

/// All groups laid end to end, in order.
pub open spec fn concat<A>(groups: Seq<Seq<A>>) -> Seq<A>
    decreases groups.len(),
{
    if groups.len() == 0 {
        Seq::empty()
    } else {
        concat(groups.drop_last()) + groups.last()
    }
}

/// The elements of `s` without repetition, each at the place of its first
/// occurrence.
pub open spec fn distinct<A>(s: Seq<A>) -> Seq<A>
    decreases s.len(),
{
    if s.len() == 0 {
        Seq::empty()
    } else {
        let init = distinct(s.drop_last());
        if init.contains(s.last()) {
            init
        } else {
            init.push(s.last())
        }
    }
}

/// The elements of `group` that directly follow an occurrence of `t`, in
/// order of appearance.
pub open spec fn followers_in<A>(group: Seq<A>, t: A) -> Seq<A>
    decreases group.len(),
{
    if group.len() < 2 {
        Seq::empty()
    } else {
        let init = followers_in(group.drop_last(), t);
        if group[group.len() - 2] == t {
            init.push(group.last())
        } else {
            init
        }
    }
}

/// The observed successors of `t`: what follows `t` inside each group, group
/// after group. Adjacency never crosses a group boundary.
pub open spec fn followers<A>(groups: Seq<Seq<A>>, t: A) -> Seq<A>
    decreases groups.len(),
{
    if groups.len() == 0 {
        Seq::empty()
    } else {
        followers(groups.drop_last(), t) + followers_in(groups.last(), t)
    }
}

/// How often `x` occurs in `s`.
pub open spec fn occurrences<A>(s: Seq<A>, x: A) -> nat
    decreases s.len(),
{
    if s.len() == 0 {
        0
    } else {
        occurrences(s.drop_last(), x) + if s.last() == x {
            1nat
        } else {
            0nat
        }
    }
}

/// The sum of the entries of `s`.
pub open spec fn total(s: Seq<usize>) -> nat
    decreases s.len(),
{
    if s.len() == 0 {
        0
    } else {
        total(s.drop_last()) + s.last() as nat
    }
}

/// The first token of every group that has one, group after group.
pub open spec fn heads<A>(groups: Seq<Seq<A>>) -> Seq<A>
    decreases groups.len(),
{
    if groups.len() == 0 {
        Seq::empty()
    } else {
        let init = heads(groups.drop_last());
        if groups.last().len() > 0 {
            init.push(groups.last()[0])
        } else {
            init
        }
    }
}

/// The tokens a sentence may start with: the distinct first tokens of the
/// groups, in first-occurrence order.
pub open spec fn first_tokens_of<A>(groups: Seq<Seq<A>>) -> Seq<A> {
    distinct(heads(groups))
}

/// The vocabulary of a corpus: its distinct tokens in first-occurrence order.
pub open spec fn vocabulary_of<A>(groups: Seq<Seq<A>>) -> Seq<A> {
    distinct(concat(groups))
}

/// The denominator shared by the weights that leave `from`: the number of
/// its observed successors, or `n` where none was observed.
pub open spec fn departures<A>(groups: Seq<Seq<A>>, n: nat, from: A) -> nat {
    let next = followers(groups, from);
    if next.len() == 0 {
        n
    } else {
        next.len()
    }
}

/// The numerator of the weight from `from` to `to`: how often `to` was
/// observed right after `from`, or 1 where `from` has no observed successor.
pub open spec fn transitions<A>(groups: Seq<Seq<A>>, from: A, to: A) -> nat {
    let next = followers(groups, from);
    if next.len() == 0 {
        1
    } else {
        occurrences(next, to)
    }
}

/// Row `r` of a row-major table with `n` columns.
pub open spec fn row_of(table: Seq<usize>, n: int, r: int) -> Seq<usize> {
    table.subrange(r * n, r * n + n)
}

/// `x` occurs at place `p` of `s` and nowhere before it.
pub open spec fn is_first_place<A>(s: Seq<A>, x: A, p: int) -> bool {
    &&& 0 <= p < s.len()
    &&& s[p] == x
    &&& forall|q: int| 0 <= q < p ==> s[q] != x
}

/// `distinct` never repeats an element.
pub proof fn lemma_distinct_no_duplicates<A>(s: Seq<A>)
    ensures
        distinct(s).no_duplicates(),
    decreases s.len(),
{
    if s.len() > 0 {
        lemma_distinct_no_duplicates(s.drop_last());
    }
}

/// `distinct` keeps exactly the elements of its argument.
pub proof fn lemma_distinct_contains<A>(s: Seq<A>, x: A)
    ensures
        distinct(s).contains(x) <==> s.contains(x),
    decreases s.len(),
{
    if s.len() > 0 {
        let init = s.drop_last();
        lemma_distinct_contains(init, x);
        if s.contains(x) {
            let i = choose|i: int| 0 <= i < s.len() && s[i] == x;
            if i < s.len() - 1 {
                assert(init[i] == x);
            } else {
                if !distinct(init).contains(x) {
                    assert(distinct(s).last() == x);
                }
            }
            if distinct(init).contains(x) {
                let j = choose|j: int| 0 <= j < distinct(init).len() && distinct(init)[j] == x;
                assert(distinct(s)[j] == x);
            }
        }
        if distinct(s).contains(x) {
            let j = choose|j: int| 0 <= j < distinct(s).len() && distinct(s)[j] == x;
            if j < distinct(init).len() {
                assert(distinct(init)[j] == x);
                let i = choose|i: int| 0 <= i < init.len() && init[i] == x;
                assert(s[i] == x);
            } else {
                assert(s[s.len() - 1] == x);
            }
        }
    }
}

/// Row `r` of a table with `n` columns ends before row `i` starts whenever
/// `r < i`.
pub proof fn lemma_row_bounds(n: int, r: int, i: int)
    requires
        0 <= r < i,
        0 <= n,
    ensures
        0 <= r * n,
        r * n + n <= i * n,
        (r + 1) * n == r * n + n,
{
    assert(0 <= r * n) by (nonlinear_arith)
        requires
            0 <= r,
            0 <= n,
    ;
    assert((r + 1) * n == r * n + n) by (nonlinear_arith);
    assert((r + 1) * n <= i * n) by (nonlinear_arith)
        requires
            r + 1 <= i,
            0 <= n,
    ;
}

/// Every successor observed inside a group is an element of that group.
pub proof fn lemma_followers_in_elements<A>(group: Seq<A>, t: A)
    ensures
        forall|k: int|
            0 <= k < followers_in(group, t).len() ==> group.contains(
                #[trigger] followers_in(group, t)[k],
            ),
    decreases group.len(),
{
    if group.len() >= 2 {
        let init = group.drop_last();
        lemma_followers_in_elements(init, t);
        assert forall|k: int| 0 <= k < followers_in(group, t).len() implies group.contains(
            #[trigger] followers_in(group, t)[k],
        ) by {
            if k < followers_in(init, t).len() {
                let x = followers_in(init, t)[k];
                assert(init.contains(x));
                let i = choose|i: int| 0 <= i < init.len() && init[i] == x;
                assert(group[i] == x);
            } else {
                assert(group[group.len() - 1] == followers_in(group, t)[k]);
            }
        }
    }
}

/// Every element of a group is an element of the groups laid end to end.
pub proof fn lemma_concat_contains<A>(groups: Seq<Seq<A>>, g: int, x: A)
    requires
        0 <= g < groups.len(),
        groups[g].contains(x),
    ensures
        concat(groups).contains(x),
    decreases groups.len(),
{
    let init = groups.drop_last();
    let p = choose|p: int| 0 <= p < groups[g].len() && groups[g][p] == x;
    if g < groups.len() - 1 {
        lemma_concat_contains(init, g, x);
        let i = choose|i: int| 0 <= i < concat(init).len() && concat(init)[i] == x;
        assert(concat(groups)[i] == x);
    } else {
        assert(concat(groups)[concat(init).len() + p] == x);
    }
}

/// Every observed successor is a token of the corpus.
pub proof fn lemma_followers_elements<A>(groups: Seq<Seq<A>>, t: A)
    ensures
        forall|k: int|
            0 <= k < followers(groups, t).len() ==> concat(groups).contains(
                #[trigger] followers(groups, t)[k],
            ),
    decreases groups.len(),
{
    if groups.len() > 0 {
        let init = groups.drop_last();
        lemma_followers_elements(init, t);
        lemma_followers_in_elements(groups.last(), t);
        assert forall|k: int| 0 <= k < followers(groups, t).len() implies concat(
            groups,
        ).contains(#[trigger] followers(groups, t)[k]) by {
            let x = followers(groups, t)[k];
            if k < followers(init, t).len() {
                assert(x == followers(init, t)[k]);
                let i = choose|i: int| 0 <= i < concat(init).len() && concat(init)[i] == x;
                assert(concat(groups)[i] == x);
            } else {
                assert(x == followers_in(groups.last(), t)[k - followers(init, t).len()]);
                lemma_concat_contains(groups, groups.len() - 1, x);
            }
        }
    }
}

/// An element occurs in a sequence at most as often as the sequence is long.
pub proof fn lemma_occurrences_bound<A>(s: Seq<A>, x: A)
    ensures
        occurrences(s, x) <= s.len(),
    decreases s.len(),
{
    if s.len() > 0 {
        lemma_occurrences_bound(s.drop_last(), x);
    }
}

/// Replacing one entry changes the sum by the difference of the entries.
pub proof fn lemma_total_update(s: Seq<usize>, j: int, v: usize)
    requires
        0 <= j < s.len(),
    ensures
        total(s.update(j, v)) == total(s) - s[j] + v,
    decreases s.len(),
{
    let u = s.update(j, v);
    if j == s.len() - 1 {
        assert(u.drop_last() =~= s.drop_last());
    } else {
        lemma_total_update(s.drop_last(), j, v);
        assert(u.drop_last() =~= s.drop_last().update(j, v));
    }
}

/// A sequence whose entries all equal `v` sums to `v` times its length.
pub proof fn lemma_total_constant(s: Seq<usize>, v: usize)
    requires
        forall|i: int| 0 <= i < s.len() ==> s[i] == v,
    ensures
        total(s) == s.len() * v,
    decreases s.len(),
{
    if s.len() > 0 {
        lemma_total_constant(s.drop_last(), v);
        assert(s.len() * v == (s.len() - 1) * v + v) by (nonlinear_arith)
            requires
                s.len() > 0,
        ;
    }
}

/// Counting, for each token of a duplicate-free vocabulary, how often it
/// occurs in `next` accounts for every element of `next` exactly once.
pub proof fn lemma_tally_total<A>(next: Seq<A>, vocab: Seq<A>, row: Seq<usize>)
    requires
        vocab.no_duplicates(),
        forall|k: int| 0 <= k < next.len() ==> vocab.contains(#[trigger] next[k]),
        row.len() == vocab.len(),
        forall|c: int| 0 <= c < vocab.len() ==> #[trigger] row[c] == occurrences(next, vocab[c]),
    ensures
        total(row) == next.len(),
    decreases next.len(),
{
    if next.len() == 0 {
        lemma_total_constant(row, 0);
    } else {
        let init = next.drop_last();
        let x = next.last();
        assert(vocab.contains(next[next.len() - 1]));
        let j = choose|j: int| 0 <= j < vocab.len() && vocab[j] == x;
        let less = row.update(j, (row[j] - 1) as usize);
        assert forall|c: int| 0 <= c < vocab.len() implies #[trigger] less[c] == occurrences(
            init,
            vocab[c],
        ) by {
            if c != j {
                assert(vocab[c] != x);
            }
        }
        assert forall|k: int| 0 <= k < init.len() implies vocab.contains(#[trigger] init[k]) by {
            assert(init[k] == next[k]);
        }
        lemma_tally_total(init, vocab, less);
        lemma_total_update(row, j, (row[j] - 1) as usize);
    }
}

/// No entry exceeds the sum.
pub proof fn lemma_total_bounds_entry(s: Seq<usize>, i: int)
    requires
        0 <= i < s.len(),
    ensures
        s[i] <= total(s),
    decreases s.len(),
{
    if i < s.len() - 1 {
        lemma_total_bounds_entry(s.drop_last(), i);
    }
}

/// In a sequence without repetition an element is found where it stands.
pub proof fn lemma_index_of_unique<A>(s: Seq<A>, i: int)
    requires
        s.no_duplicates(),
        0 <= i < s.len(),
    ensures
        s.index_of(s[i]) == i,
{
    let j = s.index_of(s[i]);
    assert(0 <= j < s.len() && s[j] == s[i]);
}

/// A token that is never the left element of an adjacent pair of a group has
/// no observed successor in it.
pub proof fn lemma_followers_in_none<A>(group: Seq<A>, t: A)
    requires
        forall|p: int| 0 <= p < group.len() - 1 ==> #[trigger] group[p] != t,
    ensures
        followers_in(group, t).len() == 0,
    decreases group.len(),
{
    if group.len() >= 2 {
        let init = group.drop_last();
        assert forall|p: int| 0 <= p < init.len() - 1 implies #[trigger] init[p] != t by {
            assert(init[p] == group[p]);
        }
        lemma_followers_in_none(init, t);
        assert(group[group.len() - 2] != t);
    }
}

/// A token that is never the left element of an adjacent pair has no
/// observed successor.
pub proof fn lemma_followers_none<A>(groups: Seq<Seq<A>>, t: A)
    requires
        forall|g: int, p: int|
            0 <= g < groups.len() && 0 <= p < groups[g].len() - 1 ==> #[trigger] groups[g][p] != t,
    ensures
        followers(groups, t).len() == 0,
    decreases groups.len(),
{
    if groups.len() > 0 {
        let init = groups.drop_last();
        assert forall|g: int, p: int|
            0 <= g < init.len() && 0 <= p < init[g].len() - 1 implies #[trigger] init[g][p]
            != t by {
            assert(init[g][p] == groups[g][p]);
        }
        lemma_followers_none(init, t);
        let last = groups.last();
        assert forall|p: int| 0 <= p < last.len() - 1 implies #[trigger] last[p] != t by {
            assert(last[p] == groups[groups.len() - 1][p]);
        }
        lemma_followers_in_none(last, t);
    }
}

/// An element of a sequence has a first place in it.
pub proof fn lemma_first_place_exists<A>(s: Seq<A>, x: A)
    requires
        s.contains(x),
    ensures
        exists|p: int| is_first_place(s, x, p),
    decreases s.len(),
{
    let i = choose|i: int| 0 <= i < s.len() && s[i] == x;
    let init = s.drop_last();
    if init.contains(x) {
        lemma_first_place_exists(init, x);
        let p = choose|p: int| is_first_place(init, x, p);
        assert(s[p] == init[p]);
        assert forall|q: int| 0 <= q < p implies s[q] != x by {
            assert(s[q] == init[q]);
        }
        assert(is_first_place(s, x, p));
    } else {
        if i < s.len() - 1 {
            assert(init[i] == x);
        }
        assert forall|q: int| 0 <= q < s.len() - 1 implies s[q] != x by {
            assert(init[q] == s[q]);
        }
        assert(is_first_place(s, x, s.len() - 1));
    }
}

/// Each element of a sequence is an element of one of the groups it was
/// laid together from.
pub proof fn lemma_concat_element<A>(groups: Seq<Seq<A>>, x: A)
    requires
        concat(groups).contains(x),
    ensures
        exists|g: int| 0 <= g < groups.len() && (#[trigger] groups[g]).contains(x),
    decreases groups.len(),
{
    if groups.len() > 0 {
        let init = groups.drop_last();
        let i = choose|i: int| 0 <= i < concat(groups).len() && concat(groups)[i] == x;
        if i < concat(init).len() {
            assert(concat(init)[i] == x);
            lemma_concat_element(init, x);
            let g = choose|g: int| 0 <= g < init.len() && (#[trigger] init[g]).contains(x);
            assert(groups[g].contains(x));
        } else {
            assert(groups.last()[i - concat(init).len()] == x);
            assert(groups[groups.len() - 1].contains(x));
        }
    }
}

/// `distinct` keeps the order of first occurrence: of two of its elements
/// the earlier one occurs first in the argument.
pub proof fn lemma_distinct_order<A>(s: Seq<A>, i: int, j: int)
    requires
        0 <= i < j < distinct(s).len(),
    ensures
        exists|p: int, q: int|
            p < q && is_first_place(s, distinct(s)[i], p) && is_first_place(s, distinct(s)[j], q),
    decreases s.len(),
{
    assert(s.len() > 0);
    let init = s.drop_last();
    let kept = distinct(init);
    let x = s.last();
    assert forall|y: A, p: int| is_first_place(init, y, p) implies is_first_place(s, y, p) by {
        assert(s[p] == init[p]);
        assert forall|q: int| 0 <= q < p implies s[q] != y by {
            assert(s[q] == init[q]);
        }
    }
    if j < kept.len() {
        lemma_distinct_order(init, i, j);
        let (p, q) = choose|p: int, q: int|
            p < q && is_first_place(init, kept[i], p) && is_first_place(init, kept[j], q);
        assert(distinct(s)[i] == kept[i]);
        assert(distinct(s)[j] == kept[j]);
        assert(is_first_place(s, distinct(s)[i], p));
        assert(is_first_place(s, distinct(s)[j], q));
    } else {
        assert(!kept.contains(x));
        assert(distinct(s) == kept.push(x));
        assert(distinct(s)[j] == x);
        assert(distinct(s)[i] == kept[i]);
        assert(kept.contains(kept[i]));
        lemma_distinct_contains(init, kept[i]);
        lemma_first_place_exists(init, kept[i]);
        let p = choose|p: int| is_first_place(init, kept[i], p);
        assert(is_first_place(s, distinct(s)[i], p));
        assert forall|q: int| 0 <= q < s.len() - 1 implies s[q] != x by {
            if s[q] == x {
                assert(init[q] == x);
                lemma_distinct_contains(init, x);
            }
        }
        assert(is_first_place(s, distinct(s)[j], s.len() - 1));
    }
}

} // verus!
