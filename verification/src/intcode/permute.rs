//! Enumeration of the orders in which a set of phase settings can be handed out.

use crate::intcode::word::Word;
use vstd::arithmetic::div_mod::lemma_fundamental_div_mod_converse;
use vstd::prelude::*;
use vstd::seq_lib::{to_multiset_insert, to_multiset_remove};

verus! {

/// Whether `t` holds the items of `s`, each as often as `s` does, in some order.
pub open spec fn is_arrangement(t: Seq<Word>, s: Seq<Word>) -> bool {
    t.to_multiset() == s.to_multiset()
}

/// The product of the numbers from one to `n`.
pub open spec fn factorial(n: nat) -> nat
    decreases n,
{
    if n == 0 {
        1
    } else {
        n * factorial((n - 1) as nat)
    }
}

/// The arrangements of `s`, in the order in which they are listed: those of
/// all but the last item, each with the last item put in at every position in
/// turn, from the front to the back.
pub open spec fn arrangements(s: Seq<Word>) -> Seq<Seq<Word>>
    decreases s.len(),
{
    if s.len() == 0 {
        seq![Seq::empty()]
    } else {
        widened(arrangements(s.drop_last()), s.len() as int, s.last())
    }
}

/// Each row of `rows` with `x` put in at each of the positions below `n` in turn.
pub open spec fn widened(rows: Seq<Seq<Word>>, n: int, x: Word) -> Seq<Seq<Word>> {
    Seq::new((rows.len() * n) as nat, |i: int| rows[i / n].insert(i % n, x))
}

/// The rows of a table.
pub open spec fn rows(table: Seq<Vec<Word>>) -> Seq<Seq<Word>> {
    table.map_values(|row: Vec<Word>| row@)
}

proof fn lemma_cell(i: int, j: int, n: int)
    requires
        0 <= i,
        0 <= j < n,
    ensures
        (i * n + j) / n == i,
        (i * n + j) % n == j,
        0 <= i * n + j < (i + 1) * n,
{
    lemma_fundamental_div_mod_converse(i * n + j, n, i, j);
    assert(0 <= i * n) by (nonlinear_arith)
        requires
            0 <= i,
            0 < n,
    ;
    assert((i + 1) * n == i * n + n) by (nonlinear_arith);
}

proof fn lemma_cell_of(idx: int, m: int, n: int)
    requires
        0 < n,
        0 <= m,
        0 <= idx < m * n,
    ensures
        0 <= idx / n < m,
        0 <= idx % n < n,
        idx == (idx / n) * n + idx % n,
{
    vstd::arithmetic::div_mod::lemma_fundamental_div_mod(idx, n);
    vstd::arithmetic::div_mod::lemma_mod_bound(idx, n);
    let q = idx / n;
    assert(q * n == n * q) by (nonlinear_arith);
    if q >= m {
        assert(q * n >= m * n) by (nonlinear_arith)
            requires
                q >= m,
                n > 0,
        ;
    }
    if q < 0 {
        assert(q * n <= -n) by (nonlinear_arith)
            requires
                q <= -1,
                n > 0,
        ;
    }
}

/// There are `n!` arrangements of `n` items, each of `n` items.
pub proof fn lemma_arrangements_count(s: Seq<Word>)
    ensures
        arrangements(s).len() == factorial(s.len()),
        forall|i: int|
            0 <= i < arrangements(s).len() ==> (#[trigger] arrangements(s)[i]).len() == s.len(),
    decreases s.len(),
{
    if s.len() > 0 {
        let prev = arrangements(s.drop_last());
        let n = s.len() as int;
        lemma_arrangements_count(s.drop_last());
        assert(prev.len() * n == n * prev.len()) by (nonlinear_arith);
        assert(prev.len() * n >= 0) by (nonlinear_arith)
            requires
                prev.len() >= 0,
                n >= 0,
        ;
        assert forall|i: int| 0 <= i < arrangements(s).len() implies (#[trigger] arrangements(
            s,
        )[i]).len() == s.len() by {
            lemma_cell_of(i, prev.len() as int, n);
            prev[i / n].insert_ensures(i % n, s.last());
        }
    }
}

/// Every row of the list is an arrangement of the items.
pub proof fn lemma_arrangements_sound(s: Seq<Word>, i: int)
    requires
        0 <= i < arrangements(s).len(),
    ensures
        is_arrangement(arrangements(s)[i], s),
    decreases s.len(),
{
    lemma_arrangements_count(s);
    if s.len() == 0 {
        assert(arrangements(s)[i] =~= s);
    } else {
        let prev = arrangements(s.drop_last());
        let n = s.len() as int;
        lemma_arrangements_count(s.drop_last());
        assert(prev.len() * n >= 0) by (nonlinear_arith)
            requires
                prev.len() >= 0,
                n >= 0,
        ;
        lemma_cell_of(i, prev.len() as int, n);
        lemma_arrangements_sound(s.drop_last(), i / n);
        to_multiset_insert(prev[i / n], i % n, s.last());
        assert(s.drop_last().push(s.last()) =~= s);
        vstd::seq_lib::to_multiset_build(s.drop_last(), s.last());
    }
}

/// Every arrangement of the items is a row of the list.
pub proof fn lemma_arrangements_complete(s: Seq<Word>, t: Seq<Word>) -> (i: int)
    requires
        is_arrangement(t, s),
    ensures
        0 <= i < arrangements(s).len(),
        arrangements(s)[i] == t,
    decreases s.len(),
{
    vstd::seq_lib::to_multiset_len(s);
    vstd::seq_lib::to_multiset_len(t);
    if s.len() == 0 {
        assert(t =~= Seq::<Word>::empty());
        0
    } else {
        let prev = arrangements(s.drop_last());
        let n = s.len() as int;
        let x = s.last();
        assert(s.drop_last().push(x) =~= s);
        vstd::seq_lib::to_multiset_build(s.drop_last(), x);
        vstd::seq_lib::to_multiset_contains(t, x);
        assert(t.to_multiset().count(x) > 0);
        let j = choose|j: int| 0 <= j < t.len() && t[j] == x;
        to_multiset_remove(t, j);
        assert(t.remove(j).to_multiset() =~= s.drop_last().to_multiset());
        let q = lemma_arrangements_complete(s.drop_last(), t.remove(j));
        lemma_cell(q, j, n);
        let i = q * n + j;
        assert((q + 1) * n <= prev.len() * n) by (nonlinear_arith)
            requires
                q + 1 <= prev.len(),
                n > 0,
        ;
        assert(t.remove(j).insert(j, x) =~= t);
        i
    }
}

/// Where the items are distinct, no arrangement is listed twice.
pub proof fn lemma_arrangements_distinct(s: Seq<Word>, i: int, j: int)
    requires
        s.no_duplicates(),
        0 <= i < j < arrangements(s).len(),
    ensures
        arrangements(s)[i] != arrangements(s)[j],
    decreases s.len(),
{
    lemma_arrangements_count(s);
    if s.len() > 0 {
        let front = s.drop_last();
        let prev = arrangements(front);
        let n = s.len() as int;
        let x = s.last();
        lemma_arrangements_count(front);
        assert(prev.len() * n >= 0) by (nonlinear_arith)
            requires
                prev.len() >= 0,
                n >= 0,
        ;
        lemma_cell_of(i, prev.len() as int, n);
        lemma_cell_of(j, prev.len() as int, n);
        let (p, a) = (prev[i / n], i % n);
        let (q, b) = (prev[j / n], j % n);
        lemma_arrangements_sound(front, i / n);
        lemma_arrangements_sound(front, j / n);
        assert(!front.contains(x));
        vstd::seq_lib::to_multiset_contains(front, x);
        vstd::seq_lib::to_multiset_contains(p, x);
        vstd::seq_lib::to_multiset_contains(q, x);
        p.insert_ensures(a, x);
        q.insert_ensures(b, x);
        if p.insert(a, x) == q.insert(b, x) {
            if a != b {
                if a < b {
                    assert(q.insert(b, x)[a] == q[a]);
                    assert(q.contains(q[a]));
                } else {
                    assert(p.insert(a, x)[b] == p[b]);
                    assert(p.contains(p[b]));
                }
            } else {
                assert(p =~= p.insert(a, x).remove(a));
                assert(q =~= q.insert(b, x).remove(b));
                assert(i / n != j / n);
                if i / n < j / n {
                    lemma_arrangements_distinct(front, i / n, j / n);
                } else {
                    lemma_arrangements_distinct(front, j / n, i / n);
                }
            }
        }
    }
}

fn copy_of(row: &Vec<Word>) -> (r: Vec<Word>)
    ensures
        r@ == row@,
{
    let mut r: Vec<Word> = Vec::new();
    let mut i: usize = 0;
    while i < row.len()
        invariant
            i <= row.len(),
            r@ == row@.take(i as int),
        decreases row.len() - i,
    {
        r.push(row[i]);
        assert(row@.take(i as int).push(row@[i as int]) =~= row@.take(i + 1));
        i += 1;
    }
    assert(row@.take(row.len() as int) =~= row@);
    r
}

/// Lists every order in which `numbers` can be arranged: each arrangement of
/// the items is in the list, and where the items are distinct each is there once.
pub fn permutations(numbers: &Vec<Word>) -> (output: Vec<Vec<Word>>)
    ensures
        rows(output@) == arrangements(numbers@),
        output.len() == factorial(numbers.len() as nat),
        forall|i: int| 0 <= i < output.len() ==> is_arrangement(#[trigger] output[i]@, numbers@),
        forall|t: Seq<Word>|
            is_arrangement(t, numbers@) ==> exists|i: int|
                0 <= i < output.len() && #[trigger] output[i]@ == t,
        numbers@.no_duplicates() ==> forall|i: int, j: int|
            0 <= i < j < output.len() ==> #[trigger] output[i]@ != #[trigger] output[j]@,
{
    let mut output: Vec<Vec<Word>> = Vec::new();
    output.push(Vec::new());
    assert(numbers@.take(0) =~= Seq::<Word>::empty());
    assert(rows(output@) =~= arrangements(numbers@.take(0)));
    let mut k: usize = 0;
    while k < numbers.len()
        invariant
            k <= numbers.len(),
            rows(output@) == arrangements(numbers@.take(k as int)),
        decreases numbers.len() - k,
    {
        let x = numbers[k];
        let ghost prev = rows(output@);
        let ghost n = k + 1;
        proof {
            lemma_arrangements_count(numbers@.take(k as int));
        }
        let mut next: Vec<Vec<Word>> = Vec::new();
        let mut i: usize = 0;
        assert(rows(next@) =~= widened(prev, n, x).take(0));
        while i < output.len()
            invariant
                i <= output.len(),
                k < numbers.len(),
                n == k + 1,
                prev == rows(output@),
                forall|r: int| 0 <= r < prev.len() ==> (#[trigger] prev[r]).len() == k,
                i * n <= widened(prev, n, x).len(),
                rows(next@) == widened(prev, n, x).take(i * n),
            decreases output.len() - i,
        {
            let mut j: usize = 0;
            proof {
                lemma_cell(i as int, 0, n);
                assert(i * n + n == (i + 1) * n) by (nonlinear_arith);
                assert((i + 1) * n <= prev.len() * n) by (nonlinear_arith)
                    requires
                        i + 1 <= prev.len(),
                        n > 0,
                ;
            }
            while j <= k
                invariant
                    j <= k + 1,
                    i < output.len(),
                    k < numbers.len(),
                    n == k + 1,
                    prev == rows(output@),
                    forall|r: int| 0 <= r < prev.len() ==> (#[trigger] prev[r]).len() == k,
                    (i + 1) * n <= widened(prev, n, x).len(),
                    0 <= i * n + j,
                    i * n + n == (i + 1) * n,
                    rows(next@) == widened(prev, n, x).take(i * n + j),
                decreases k + 1 - j,
            {
                let mut row = copy_of(&output[i]);
                assert(prev[i as int] == output@[i as int]@);
                row.insert(j, x);
                let ghost listed = next@;
                next.push(row);
                proof {
                    lemma_cell(i as int, j as int, n);
                    let full = widened(prev, n, x);
                    assert(full[i * n + j] == row@);
                    assert(rows(next@) =~= rows(listed).push(row@));
                    assert(full.take(i * n + j).push(full[i * n + j]) =~= full.take(i * n + j + 1));
                }
                j += 1;
            }
            i += 1;
        }
        proof {
            let s = numbers@.take(k + 1);
            assert(s.drop_last() =~= numbers@.take(k as int));
            assert(s.last() == x);
            assert(widened(prev, n, x).take(output.len() * n) =~= widened(prev, n, x));
        }
        output = next;
        k += 1;
    }
    proof {
        assert(numbers@.take(numbers.len() as int) =~= numbers@);
        let s = numbers@;
        lemma_arrangements_count(s);
        assert(rows(output@).len() == output.len());
        assert forall|i: int| 0 <= i < output.len() implies is_arrangement(
            #[trigger] output[i]@,
            s,
        ) by {
            lemma_arrangements_sound(s, i);
            assert(rows(output@)[i] == output[i]@);
        }
        assert forall|t: Seq<Word>| is_arrangement(t, s) implies exists|i: int|
            0 <= i < output.len() && #[trigger] output[i]@ == t by {
            let i = lemma_arrangements_complete(s, t);
            assert(rows(output@)[i] == output[i]@);
        }
        if s.no_duplicates() {
            assert forall|i: int, j: int| 0 <= i < j < output.len() implies #[trigger] output[i]@
                != #[trigger] output[j]@ by {
                lemma_arrangements_distinct(s, i, j);
                assert(rows(output@)[i] == output[i]@);
                assert(rows(output@)[j] == output[j]@);
            }
        }
    }
    output
}

} // verus!
