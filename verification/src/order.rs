//! The canonical order of displacement vectors: lexicographic, a proper
//! prefix before what it is a prefix of.
use vstd::prelude::*;

verus! {

/// A vector of machine integers as mathematical integers.
pub open spec fn as_ints(v: Seq<isize>) -> Seq<int> {
    v.map_values(|x: isize| x as int)
}

/// A list of vectors as sequences of mathematical integers.
pub open spec fn rows_view(rows: Seq<Vec<isize>>) -> Seq<Seq<int>> {
    rows.map_values(|v: Vec<isize>| as_ints(v@))
}

/// `a` and `b` agree before position `k`, and at `k` either `a` ends while
/// `b` goes on, or `a` holds the smaller entry.
pub open spec fn less_at(a: Seq<int>, b: Seq<int>, k: int) -> bool {
    &&& 0 <= k <= a.len()
    &&& k < b.len()
    &&& forall|j: int| 0 <= j < k ==> a[j] == b[j]
    &&& (k == a.len() || a[k] < b[k])
}

/// `a` comes strictly before `b` in lexicographic order.
pub open spec fn lex_lt(a: Seq<int>, b: Seq<int>) -> bool {
    exists|k: int| less_at(a, b, k)
}

/// No later vector comes strictly before an earlier one.
pub open spec fn sorted(rows: Seq<Seq<int>>) -> bool {
    forall|i: int, j: int| 0 <= i < j < rows.len() ==> !lex_lt(rows[j], rows[i])
}

/// Every earlier vector comes strictly before every later one: the rows are
/// sorted and hold no vector twice.
pub open spec fn strictly_sorted(rows: Seq<Seq<int>>) -> bool {
    forall|i: int, j: int| 0 <= i < j < rows.len() ==> lex_lt(rows[i], rows[j])
}

/// No vector comes before itself.
pub proof fn lemma_lex_irreflexive(a: Seq<int>)
    ensures
        !lex_lt(a, a),
{
}

/// The order is transitive.
pub proof fn lemma_lex_transitive(a: Seq<int>, b: Seq<int>, c: Seq<int>)
    requires
        lex_lt(a, b),
        lex_lt(b, c),
    ensures
        lex_lt(a, c),
{
    let k1 = choose|k: int| less_at(a, b, k);
    let k2 = choose|k: int| less_at(b, c, k);
    let k = if k1 <= k2 {
        k1
    } else {
        k2
    };
    assert(less_at(a, c, k));
}

/// Two vectors that agree before `k` are equal or ordered one way.
proof fn lemma_lex_total_from(a: Seq<int>, b: Seq<int>, k: int)
    requires
        0 <= k <= a.len(),
        k <= b.len(),
        forall|j: int| 0 <= j < k ==> a[j] == b[j],
    ensures
        a == b || lex_lt(a, b) || lex_lt(b, a),
    decreases a.len() - k,
{
    if k == a.len() {
        if k == b.len() {
            assert(a =~= b);
        } else {
            assert(less_at(a, b, k));
        }
    } else if k == b.len() {
        assert(less_at(b, a, k));
    } else if a[k] < b[k] {
        assert(less_at(a, b, k));
    } else if b[k] < a[k] {
        assert(less_at(b, a, k));
    } else {
        lemma_lex_total_from(a, b, k + 1);
    }
}

/// Of two different vectors one comes before the other.
pub proof fn lemma_lex_total(a: Seq<int>, b: Seq<int>)
    ensures
        a == b || lex_lt(a, b) || lex_lt(b, a),
{
    lemma_lex_total_from(a, b, 0);
}

/// Not both of two vectors come before the other.
pub proof fn lemma_lex_asymmetric(a: Seq<int>, b: Seq<int>)
    requires
        lex_lt(a, b),
    ensures
        !lex_lt(b, a),
{
    if lex_lt(b, a) {
        lemma_lex_transitive(a, b, a);
    }
}

/// A strictly sorted list is sorted.
pub proof fn lemma_strictly_sorted_is_sorted(rows: Seq<Seq<int>>)
    requires
        strictly_sorted(rows),
    ensures
        sorted(rows),
        rows.no_duplicates(),
{
    assert forall|i: int, j: int| 0 <= i < j < rows.len() implies !lex_lt(rows[j], rows[i]) by {
        lemma_lex_asymmetric(rows[i], rows[j]);
    }
    assert forall|i: int, j: int| 0 <= i < rows.len() && 0 <= j < rows.len() && i != j implies rows[i]
        != rows[j] by {
        if i < j {
            assert(lex_lt(rows[i], rows[j]));
        } else {
            assert(lex_lt(rows[j], rows[i]));
        }
    }
}

/// Two strictly sorted lists that hold the same vectors are the same list:
/// the sorted list without repetition of a set of vectors is unique.
pub proof fn lemma_strictly_sorted_unique(s: Seq<Seq<int>>, t: Seq<Seq<int>>)
    requires
        strictly_sorted(s),
        strictly_sorted(t),
        forall|v: Seq<int>| s.contains(v) <==> t.contains(v),
    ensures
        s == t,
    decreases s.len(),
{
    if s.len() == 0 {
        if t.len() > 0 {
            assert(t.contains(t[0]));
        }
        assert(s =~= t);
    } else if t.len() == 0 {
        assert(s.contains(s[0]));
    } else {
        // the first entries are the least of the same set
        assert(s.contains(s[0]));
        assert(t.contains(t[0]));
        let i = choose|i: int| 0 <= i < t.len() && t[i] == s[0];
        let j = choose|j: int| 0 <= j < s.len() && s[j] == t[0];
        if i > 0 {
            assert(lex_lt(t[0], t[i]));
            if j > 0 {
                assert(lex_lt(s[0], s[j]));
                lemma_lex_asymmetric(s[0], t[0]);
            }
        }
        assert(s[0] == t[0]);
        let s1 = s.skip(1);
        let t1 = t.skip(1);
        assert forall|v: Seq<int>| s1.contains(v) <==> t1.contains(v) by {
            if s1.contains(v) {
                let a = choose|a: int| 0 <= a < s1.len() && s1[a] == v;
                assert(s[a + 1] == v);
                assert(lex_lt(s[0], s[a + 1]));
                assert(s.contains(v));
                let b = choose|b: int| 0 <= b < t.len() && t[b] == v;
                assert(b != 0);
                assert(t1[b - 1] == v);
            }
            if t1.contains(v) {
                let a = choose|a: int| 0 <= a < t1.len() && t1[a] == v;
                assert(t[a + 1] == v);
                assert(lex_lt(t[0], t[a + 1]));
                assert(t.contains(v));
                let b = choose|b: int| 0 <= b < s.len() && s[b] == v;
                assert(b != 0);
                assert(s1[b - 1] == v);
            }
        }
        assert(strictly_sorted(s1)) by {
            assert forall|a: int, b: int| 0 <= a < b < s1.len() implies lex_lt(s1[a], s1[b]) by {
                assert(lex_lt(s[a + 1], s[b + 1]));
            }
        }
        assert(strictly_sorted(t1)) by {
            assert forall|a: int, b: int| 0 <= a < b < t1.len() implies lex_lt(t1[a], t1[b]) by {
                assert(lex_lt(t[a + 1], t[b + 1]));
            }
        }
        lemma_strictly_sorted_unique(s1, t1);
        assert(s =~= seq![s[0]] + s1);
        assert(t =~= seq![t[0]] + t1);
    }
}

/// Tells whether `a` comes strictly before `b`.
pub fn lex_less(a: &Vec<isize>, b: &Vec<isize>) -> (less: bool)
    ensures
        less == lex_lt(as_ints(a@), as_ints(b@)),
{
    let ghost x = as_ints(a@);
    let ghost y = as_ints(b@);
    let mut k: usize = 0;
    while k < a.len() && k < b.len()
        invariant
            k <= a.len(),
            k <= b.len(),
            x == as_ints(a@),
            y == as_ints(b@),
            forall|j: int| 0 <= j < k ==> x[j] == y[j],
        decreases a.len() - k,
    {
        if a[k] < b[k] {
            assert(less_at(x, y, k as int));
            return true;
        }
        if a[k] > b[k] {
            assert(less_at(y, x, k as int));
            proof {
                lemma_lex_asymmetric(y, x);
            }
            return false;
        }
        k = k + 1;
    }
    if k < b.len() {
        assert(less_at(x, y, k as int));
        true
    } else {
        proof {
            if k < a.len() {
                assert(less_at(y, x, k as int));
                lemma_lex_asymmetric(y, x);
            } else {
                assert(x =~= y);
                lemma_lex_irreflexive(x);
            }
        }
        false
    }
}

/// A sorted list stays sorted when a vector is put where every row before
/// it does not come after it and every row behind it does.
proof fn lemma_insert_keeps_sorted(rows: Seq<Seq<int>>, at: int, v: Seq<int>)
    requires
        sorted(rows),
        0 <= at <= rows.len(),
        forall|i: int| 0 <= i < at ==> !lex_lt(v, rows[i]),
        forall|i: int| at <= i < rows.len() ==> lex_lt(v, rows[i]),
    ensures
        sorted(rows.insert(at, v)),
{
    let grown = rows.insert(at, v);
    assert forall|i: int, j: int| 0 <= i < j < grown.len() implies !lex_lt(grown[j], grown[i]) by {
        if j == at {
            assert(grown[i] == rows[i]);
        } else if i == at {
            assert(grown[j] == rows[j - 1]);
            lemma_lex_asymmetric(v, rows[j - 1]);
        } else {
            let a = if i < at {
                i
            } else {
                i - 1
            };
            let b = if j < at {
                j
            } else {
                j - 1
            };
            assert(grown[i] == rows[a] && grown[j] == rows[b]);
        }
    }
}

/// Where `v` goes into the sorted `rows`: behind every row that does not
/// come after it.
fn insertion_point(rows: &Vec<Vec<isize>>, v: &Vec<isize>) -> (at: usize)
    requires
        sorted(rows_view(rows@)),
    ensures
        at <= rows.len(),
        forall|i: int| 0 <= i < at ==> !lex_lt(as_ints(v@), #[trigger] rows_view(rows@)[i]),
        forall|i: int|
            at <= i < rows.len() ==> lex_lt(as_ints(v@), #[trigger] rows_view(rows@)[i]),
{
    let ghost list = rows_view(rows@);
    let ghost x = as_ints(v@);
    let mut lo: usize = 0;
    let mut hi: usize = rows.len();
    while lo < hi
        invariant
            lo <= hi <= rows.len(),
            list == rows_view(rows@),
            x == as_ints(v@),
            sorted(list),
            forall|i: int| 0 <= i < lo ==> !lex_lt(x, #[trigger] list[i]),
            forall|i: int| hi <= i < rows.len() ==> lex_lt(x, #[trigger] list[i]),
        decreases hi - lo,
    {
        let mid = lo + (hi - lo) / 2;
        assert(list[mid as int] == as_ints(rows[mid as int]@));
        if lex_less(v, &rows[mid]) {
            assert forall|i: int| mid <= i < rows.len() implies lex_lt(x, #[trigger] list[i]) by {
                if i > mid {
                    lemma_lex_total(list[mid as int], list[i]);
                    if list[mid as int] != list[i] {
                        lemma_lex_transitive(x, list[mid as int], list[i]);
                    }
                }
            }
            hi = mid;
        } else {
            assert forall|i: int| 0 <= i < mid + 1 implies !lex_lt(x, #[trigger] list[i]) by {
                if i < mid && lex_lt(x, list[i]) {
                    lemma_lex_total(list[i], list[mid as int]);
                    if list[i] != list[mid as int] {
                        lemma_lex_transitive(x, list[i], list[mid as int]);
                    }
                }
            }
            lo = mid + 1;
        }
    }
    lo
}

/// Sorts the vectors into lexicographic order. Nothing is added and nothing
/// is lost: the result holds every vector as often as before.
pub fn sort_rows(rows: &mut Vec<Vec<isize>>)
    ensures
        sorted(rows_view(final(rows)@)),
        rows_view(final(rows)@).to_multiset() == rows_view(old(rows)@).to_multiset(),
{
    let ghost start = rows_view(rows@);
    let mut out: Vec<Vec<isize>> = Vec::new();
    assert(rows_view(out@) =~= Seq::<Seq<int>>::empty());
    assert(rows_view(out@).to_multiset().add(start.to_multiset()) =~= start.to_multiset()) by {
        broadcast use vstd::seq_lib::group_to_multiset_ensures;

        assert(rows_view(out@).to_multiset().len() == 0);
    }
    while rows.len() > 0
        invariant
            sorted(rows_view(out@)),
            rows_view(out@).to_multiset().add(rows_view(rows@).to_multiset())
                == start.to_multiset(),
        decreases rows.len(),
    {
        let ghost left = rows_view(rows@);
        let ghost done = rows_view(out@);
        let v = rows.pop().unwrap();
        let at = insertion_point(&out, &v);
        out.insert(at, v);
        proof {
            let x = as_ints(v@);
            assert(rows_view(rows@) =~= left.remove(left.len() - 1));
            assert(rows_view(out@) =~= done.insert(at as int, x));
            vstd::seq_lib::to_multiset_remove(left, left.len() - 1);
            vstd::seq_lib::to_multiset_insert(done, at as int, x);
            lemma_insert_keeps_sorted(done, at as int, x);
            assert(left.to_multiset().count(x) > 0) by {
                broadcast use vstd::seq_lib::group_to_multiset_ensures;

                assert(left.contains(left[left.len() - 1]));
            }
            assert(done.to_multiset().insert(x).add(left.to_multiset().remove(x))
                =~= done.to_multiset().add(left.to_multiset()));
        }
    }
    proof {
        assert(rows_view(rows@) =~= Seq::<Seq<int>>::empty());
        assert(rows_view(rows@).to_multiset() =~= vstd::multiset::Multiset::empty()) by {
            broadcast use vstd::seq_lib::group_to_multiset_ensures;

            assert(rows_view(rows@).to_multiset().len() == 0);
        }
        assert(rows_view(out@).to_multiset().add(vstd::multiset::Multiset::empty()) =~= rows_view(
            out@,
        ).to_multiset());
    }
    *rows = out;
}

/// Drops the repetitions from a sorted list: what is left holds the same
/// vectors, each once, in strictly ascending order.
pub fn dedup_rows(rows: &mut Vec<Vec<isize>>)
    requires
        sorted(rows_view(old(rows)@)),
    ensures
        strictly_sorted(rows_view(final(rows)@)),
        forall|v: Seq<int>|
            rows_view(final(rows)@).contains(v) <==> rows_view(old(rows)@).contains(v),
{
    let ghost start = rows_view(rows@);
    let mut i: usize = 1;
    if rows.len() == 0 {
        return ;
    }
    while i < rows.len()
        invariant
            1 <= i <= rows.len(),
            sorted(rows_view(rows@)),
            strictly_sorted(rows_view(rows@).take(i as int)),
            forall|v: Seq<int>| rows_view(rows@).contains(v) <==> start.contains(v),
        decreases rows.len() - i,
    {
        let ghost list = rows_view(rows@);
        assert(list[i - 1] == as_ints(rows[i - 1]@));
        assert(list[i as int] == as_ints(rows[i as int]@));
        if lex_less(&rows[i - 1], &rows[i]) {
            proof {
                let shorter = list.take(i as int);
                let longer = list.take(i + 1);
                assert forall|a: int, b: int| 0 <= a < b < longer.len() implies lex_lt(
                    longer[a],
                    longer[b],
                ) by {
                    if b == i {
                        if a < i - 1 {
                            assert(lex_lt(shorter[a], shorter[i - 1]));
                            lemma_lex_transitive(list[a], list[i - 1], list[i as int]);
                        }
                    } else {
                        assert(lex_lt(shorter[a], shorter[b]));
                    }
                }
            }
            i = i + 1;
        } else {
            proof {
                lemma_lex_total(list[i - 1], list[i as int]);
                assert(list[i - 1] == list[i as int]);
            }
            rows.remove(i);
            proof {
                let fewer = rows_view(rows@);
                assert(fewer =~= list.remove(i as int));
                assert forall|a: int, b: int| 0 <= a < b < fewer.len() implies !lex_lt(
                    fewer[b],
                    fewer[a],
                ) by {
                    let a0 = if a < i {
                        a
                    } else {
                        a + 1
                    };
                    let b0 = if b < i {
                        b
                    } else {
                        b + 1
                    };
                    assert(fewer[a] == list[a0] && fewer[b] == list[b0]);
                }
                assert(fewer.take(i as int) =~= list.take(i as int));
                assert forall|v: Seq<int>| fewer.contains(v) <==> list.contains(v) by {
                    if fewer.contains(v) {
                        let a = choose|a: int| 0 <= a < fewer.len() && fewer[a] == v;
                        let a0 = if a < i {
                            a
                        } else {
                            a + 1
                        };
                        assert(list[a0] == v);
                    }
                    if list.contains(v) {
                        let a = choose|a: int| 0 <= a < list.len() && list[a] == v;
                        let a1 = if a < i {
                            a
                        } else {
                            a - 1
                        };
                        assert(fewer[a1] == v);
                    }
                }
            }
        }
    }
    assert(rows_view(rows@).take(i as int) =~= rows_view(rows@));
}

} // verus!
