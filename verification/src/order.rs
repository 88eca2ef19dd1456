//! Orders used to present collections deterministically: the order of strings
//! (which is the order of their characters' code points, the same order as
//! comparing their UTF-8 bytes) and stable sorting by a "goes before" relation.

use vstd::prelude::*;

use crate::text::chars_of;

verus! {

/// Strict lexicographic order of character sequences by code point.
pub open spec fn lex_lt(a: Seq<char>, b: Seq<char>) -> bool
    decreases a.len(),
{
    if b.len() == 0 {
        false
    } else if a.len() == 0 {
        true
    } else if a[0] != b[0] {
        a[0] < b[0]
    } else {
        lex_lt(a.drop_first(), b.drop_first())
    }
}

pub proof fn lemma_lex_irreflexive(a: Seq<char>)
    ensures
        !lex_lt(a, a),
    decreases a.len(),
{
    if a.len() > 0 {
        lemma_lex_irreflexive(a.drop_first());
    }
}

pub proof fn lemma_lex_transitive(a: Seq<char>, b: Seq<char>, c: Seq<char>)
    requires
        lex_lt(a, b),
        lex_lt(b, c),
    ensures
        lex_lt(a, c),
    decreases a.len(),
{
    if a.len() > 0 && b.len() > 0 && c.len() > 0 {
        if a[0] == b[0] && b[0] == c[0] {
            lemma_lex_transitive(a.drop_first(), b.drop_first(), c.drop_first());
        }
    }
}

pub proof fn lemma_lex_total(a: Seq<char>, b: Seq<char>)
    requires
        a != b,
    ensures
        lex_lt(a, b) || lex_lt(b, a),
    decreases a.len(),
{
    if a.len() > 0 && b.len() > 0 && a[0] == b[0] {
        if a.drop_first() == b.drop_first() {
            assert(a =~= seq![a[0]] + a.drop_first());
            assert(b =~= seq![b[0]] + b.drop_first());
        }
        lemma_lex_total(a.drop_first(), b.drop_first());
    } else if a.len() == 0 && b.len() == 0 {
        assert(a =~= b);
    }
}

/// Whether `a` comes strictly before `b` in string order.
pub fn text_less(a: &str, b: &str) -> (less: bool)
    ensures
        less == lex_lt(a@, b@),
{
    let ca = chars_of(a);
    let cb = chars_of(b);
    let mut index: usize = 0;
    assert(ca@.skip(0) =~= ca@);
    assert(cb@.skip(0) =~= cb@);
    while index < ca.len() && index < cb.len()
        invariant
            ca@ == a@,
            cb@ == b@,
            index <= ca@.len(),
            index <= cb@.len(),
            lex_lt(ca@, cb@) == lex_lt(ca@.skip(index as int), cb@.skip(index as int)),
        decreases ca.len() - index,
    {
        if ca[index] != cb[index] {
            assert(ca@.skip(index as int)[0] == ca@[index as int]);
            assert(cb@.skip(index as int)[0] == cb@[index as int]);
            return ca[index] < cb[index];
        }
        proof {
            assert(ca@.skip(index as int).drop_first() =~= ca@.skip(index + 1));
            assert(cb@.skip(index as int).drop_first() =~= cb@.skip(index + 1));
        }
        index = index + 1;
    }
    index == ca.len() && index < cb.len()
}

/// Where `x` is inserted into `s`: before the first element that `x` goes
/// strictly before, so that equal elements keep their arrival order.
pub open spec fn insertion_index<T>(s: Seq<T>, x: T, before: spec_fn(T, T) -> bool) -> nat
    decreases s.len(),
{
    if s.len() == 0 {
        0
    } else if before(x, s[0]) {
        0
    } else {
        1 + insertion_index(s.drop_first(), x, before)
    }
}

pub open spec fn insert_in_order<T>(s: Seq<T>, x: T, before: spec_fn(T, T) -> bool) -> Seq<T> {
    let p = insertion_index(s, x, before) as int;
    s.take(p).push(x) + s.skip(p)
}

/// The stable sort of `s` by `before`: elements are inserted one by one in
/// the order they came in.
pub open spec fn sort_by<T>(s: Seq<T>, before: spec_fn(T, T) -> bool) -> Seq<T>
    decreases s.len(),
{
    if s.len() == 0 {
        Seq::empty()
    } else {
        insert_in_order(sort_by(s.drop_last(), before), s.last(), before)
    }
}

/// No element goes strictly before an element that precedes it.
pub open spec fn sorted_by<T>(s: Seq<T>, before: spec_fn(T, T) -> bool) -> bool {
    forall|i: int, j: int| 0 <= i < j < s.len() ==> !before(#[trigger] s[j], #[trigger] s[i])
}

/// `before` is a strict order: irreflexive and transitive.
pub open spec fn strict_order<T>(before: spec_fn(T, T) -> bool) -> bool {
    &&& forall|a: T| !#[trigger] before(a, a)
    &&& forall|a: T, b: T, c: T| #[trigger] before(a, b) && #[trigger] before(b, c) ==> before(a, c)
}

pub proof fn lemma_insertion_index<T>(s: Seq<T>, x: T, before: spec_fn(T, T) -> bool)
    ensures
        insertion_index(s, x, before) <= s.len(),
        forall|k: int| 0 <= k < insertion_index(s, x, before) ==> !before(x, #[trigger] s[k]),
        insertion_index(s, x, before) < s.len() ==> before(x, s[insertion_index(s, x, before) as int]),
    decreases s.len(),
{
    if s.len() > 0 && !before(x, s[0]) {
        lemma_insertion_index(s.drop_first(), x, before);
        assert forall|k: int| 0 <= k < insertion_index(s, x, before) implies !before(x, #[trigger] s[k]) by {
            if k > 0 {
                assert(s[k] == s.drop_first()[k - 1]);
            }
        }
    }
}

/// Inserting into a sorted sequence keeps it sorted and adds exactly `x`.
pub proof fn lemma_insert_in_order<T>(s: Seq<T>, x: T, before: spec_fn(T, T) -> bool)
    requires
        strict_order(before),
        sorted_by(s, before),
    ensures
        sorted_by(insert_in_order(s, x, before), before),
        insert_in_order(s, x, before).to_multiset() =~= s.to_multiset().insert(x),
        insert_in_order(s, x, before).len() == s.len() + 1,
{
    lemma_insertion_index(s, x, before);
    let p = insertion_index(s, x, before) as int;
    let r = insert_in_order(s, x, before);
    assert(r.len() == s.len() + 1);
    assert forall|k: int| 0 <= k < r.len() implies #[trigger] r[k] == (if k < p {
        s[k]
    } else if k == p {
        x
    } else {
        s[k - 1]
    }) by {}
    assert forall|i: int, j: int| 0 <= i < j < r.len() implies !before(
        #[trigger] r[j],
        #[trigger] r[i],
    ) by {
        if i < p && j == p {
        } else if i == p {
            if before(r[j], x) {
                assert(before(x, s[p]));
                if j - 1 == p {
                } else {
                    assert(before(s[j - 1], s[p]));
                }
            }
        } else {
        }
    }
    broadcast use vstd::seq_lib::group_to_multiset_ensures;
    assert(r.remove(p) =~= s);
    assert(r[p] == x);
    assert(r.contains(x));
    assert(r.to_multiset().count(x) > 0);
    assert(s.to_multiset() =~= r.to_multiset().remove(x));
}

/// The stable sort is sorted and holds exactly the given elements.
pub proof fn lemma_sort_by<T>(s: Seq<T>, before: spec_fn(T, T) -> bool)
    requires
        strict_order(before),
    ensures
        sorted_by(sort_by(s, before), before),
        sort_by(s, before).to_multiset() =~= s.to_multiset(),
        sort_by(s, before).len() == s.len(),
    decreases s.len(),
{
    if s.len() > 0 {
        lemma_sort_by(s.drop_last(), before);
        lemma_insert_in_order(sort_by(s.drop_last(), before), s.last(), before);
        broadcast use vstd::seq_lib::group_to_multiset_ensures;
        assert(s =~= s.drop_last().push(s.last()));
        assert(s.drop_last().push(s.last()).to_multiset() =~= s.drop_last().to_multiset().insert(
            s.last(),
        ));
        let sorted_prefix = sort_by(s.drop_last(), before);
        assert(sort_by(s, before) == insert_in_order(sorted_prefix, s.last(), before));
        assert(sort_by(s, before).to_multiset() =~= sorted_prefix.to_multiset().insert(s.last()));
        assert(s.to_multiset() =~= s.drop_last().to_multiset().insert(s.last()));
    } else {
        broadcast use vstd::seq_lib::group_to_multiset_ensures;
        assert(s =~= Seq::<T>::empty());
    }
}


/// Values with a strict "goes before" order used for presentation.
pub trait Precedes: Sized {
    spec fn before(a: Self, b: Self) -> bool;

    fn goes_before(&self, other: &Self) -> (before: bool)
        ensures
            before == Self::before(*self, *other),
    ;
}

pub open spec fn before_fn<T: Precedes>() -> spec_fn(T, T) -> bool {
    |a: T, b: T| T::before(a, b)
}

/// Stable insertion sort: the result is `sort_by(items, before)`.
pub fn stable_sort<T: Precedes>(items: Vec<T>) -> (sorted: Vec<T>)
    ensures
        sorted@ == sort_by(items@, before_fn::<T>()),
{
    let ghost input = items@;
    let ghost f = before_fn::<T>();
    let mut rest = items;
    let mut result: Vec<T> = Vec::new();
    let ghost mut consumed: int = 0;
    assert(input.take(0) =~= Seq::<T>::empty());
    assert(input.skip(0) =~= input);
    while rest.len() > 0
        invariant
            0 <= consumed <= input.len(),
            f == before_fn::<T>(),
            rest@ == input.skip(consumed),
            result@ == sort_by(input.take(consumed), f),
        decreases rest.len(),
    {
        let x = rest.remove(0);
        proof {
            assert(x == input[consumed]);
        }
        let mut k: usize = 0;
        assert(result@.skip(0) =~= result@);
        while k < result.len() && !x.goes_before(&result[k])
            invariant
                k <= result@.len(),
                f == before_fn::<T>(),
                insertion_index(result@, x, f) == k + insertion_index(result@.skip(k as int), x, f),
            decreases result.len() - k,
        {
            proof {
                assert(result@.skip(k as int)[0] == result@[k as int]);
                assert(result@.skip(k as int).drop_first() =~= result@.skip(k + 1));
            }
            k = k + 1;
        }
        proof {
            if k < result@.len() {
                assert(result@.skip(k as int)[0] == result@[k as int]);
            }
            assert(insertion_index(result@, x, f) == k);
            assert(input.take(consumed + 1).drop_last() =~= input.take(consumed));
            assert(input.take(consumed + 1).last() == x);
        }
        let ghost before_insert = result@;
        result.insert(k, x);
        proof {
            assert(result@ =~= insert_in_order(before_insert, x, f));
            assert(rest@ =~= input.skip(consumed + 1));
            consumed = consumed + 1;
        }
    }
    proof {
        assert(input.take(consumed) =~= input);
    }
    result
}


/// The elements of `s` that satisfy `keep`, in the order they came in.
pub open spec fn keep_where<T>(s: Seq<T>, keep: spec_fn(T) -> bool) -> Seq<T>
    decreases s.len(),
{
    if s.len() == 0 {
        Seq::empty()
    } else if keep(s.last()) {
        keep_where(s.drop_last(), keep).push(s.last())
    } else {
        keep_where(s.drop_last(), keep)
    }
}

/// Every element kept satisfies `keep` and comes from `s`; a sorted sequence
/// stays sorted; nothing that satisfies `keep` is lost.
pub proof fn lemma_keep_where<T>(s: Seq<T>, keep: spec_fn(T) -> bool, before: spec_fn(T, T) -> bool)
    ensures
        keep_where(s, keep).len() <= s.len(),
        forall|i: int|
            0 <= i < keep_where(s, keep).len() ==> keep(#[trigger] keep_where(s, keep)[i])
                && s.contains(keep_where(s, keep)[i]),
        forall|x: T| s.contains(x) && keep(x) ==> #[trigger] keep_where(s, keep).contains(x),
        sorted_by(s, before) ==> sorted_by(keep_where(s, keep), before),
        (keep_where(s, keep).len() == s.len()) == (forall|i: int| 0 <= i < s.len() ==> keep(#[trigger] s[i])),
    decreases s.len(),
{
    if s.len() > 0 {
        let prefix = s.drop_last();
        lemma_keep_where(prefix, keep, before);
        let r = keep_where(s, keep);
        let rp = keep_where(prefix, keep);
        assert forall|i: int| 0 <= i < r.len() implies keep(#[trigger] r[i]) && s.contains(r[i]) by {
            if i < rp.len() {
                assert(r[i] == rp[i]);
                assert(prefix.contains(rp[i]));
                let j = choose|j: int| 0 <= j < prefix.len() && prefix[j] == rp[i];
                assert(0 <= j < prefix.len());
                assert(s[j] == prefix[j]);
            } else {
                assert(s[s.len() - 1] == s.last());
            }
        }
        assert forall|x: T| s.contains(x) && keep(x) implies #[trigger] r.contains(x) by {
            let j = choose|j: int| 0 <= j < s.len() && s[j] == x;
            assert(0 <= j < s.len());
            if j < s.len() - 1 {
                assert(prefix[j] == x);
                assert(prefix.contains(x));
                assert(rp.contains(x));
                let k = choose|k: int| 0 <= k < rp.len() && rp[k] == x;
                assert(0 <= k < rp.len());
                assert(r[k] == rp[k]);
            } else {
                assert(r[r.len() - 1] == x);
            }
        }
        if sorted_by(s, before) {
            assert(sorted_by(prefix, before)) by {
                assert forall|i: int, j: int| 0 <= i < j < prefix.len() implies !before(
                    #[trigger] prefix[j],
                    #[trigger] prefix[i],
                ) by {
                    assert(prefix[i] == s[i] && prefix[j] == s[j]);
                }
            }
            if keep(s.last()) {
                assert forall|i: int, j: int| 0 <= i < j < r.len() implies !before(
                    #[trigger] r[j],
                    #[trigger] r[i],
                ) by {
                    if j == r.len() - 1 {
                        assert(r[i] == rp[i]);
                        let k = choose|k: int| 0 <= k < prefix.len() && prefix[k] == rp[i];
                        assert(s[k] == r[i]);
                        assert(s[s.len() - 1] == r[j]);
                    } else {
                        assert(r[i] == rp[i] && r[j] == rp[j]);
                    }
                }
            }
        }
        if keep_where(s, keep).len() == s.len() {
            assert(keep(s.last()));
            assert forall|i: int| 0 <= i < s.len() implies keep(#[trigger] s[i]) by {
                if i < s.len() - 1 {
                    assert(s[i] == prefix[i]);
                }
            }
        }
        if forall|i: int| 0 <= i < s.len() ==> keep(#[trigger] s[i]) {
            assert(keep(s[s.len() - 1]));
            assert forall|i: int| 0 <= i < prefix.len() implies keep(#[trigger] prefix[i]) by {
                assert(prefix[i] == s[i]);
            }
        }
    }
}


/// The index of the first element of `s` satisfying `pred`.
pub open spec fn first_match<T>(s: Seq<T>, pred: spec_fn(T) -> bool) -> Option<nat>
    decreases s.len(),
{
    if s.len() == 0 {
        None
    } else if pred(s[0]) {
        Some(0)
    } else {
        match first_match(s.drop_first(), pred) {
            Some(k) => Some(k + 1),
            None => None,
        }
    }
}

/// `first_match` finds the first satisfying element, or reports that none
/// satisfies the predicate.
pub proof fn lemma_first_match<T>(s: Seq<T>, pred: spec_fn(T) -> bool)
    ensures
        match first_match(s, pred) {
            Some(k) => k < s.len() && pred(s[k as int]) && forall|j: int|
                0 <= j < k ==> !pred(#[trigger] s[j]),
            None => forall|j: int| 0 <= j < s.len() ==> !pred(#[trigger] s[j]),
        },
    decreases s.len(),
{
    if s.len() > 0 && !pred(s[0]) {
        lemma_first_match(s.drop_first(), pred);
        match first_match(s.drop_first(), pred) {
            Some(k) => {
                assert forall|j: int| 0 <= j < k + 1 implies !pred(#[trigger] s[j]) by {
                    if j > 0 {
                        assert(s[j] == s.drop_first()[j - 1]);
                    }
                }
            },
            None => {
                assert forall|j: int| 0 <= j < s.len() implies !pred(#[trigger] s[j]) by {
                    if j > 0 {
                        assert(s[j] == s.drop_first()[j - 1]);
                    }
                }
            },
        }
    }
}

/// The characterization of `first_match` by its first satisfying index.
pub proof fn lemma_first_match_at<T>(s: Seq<T>, pred: spec_fn(T) -> bool, k: int)
    requires
        0 <= k <= s.len(),
        forall|j: int| 0 <= j < k ==> !pred(#[trigger] s[j]),
        k < s.len() ==> pred(s[k]),
    ensures
        first_match(s, pred) == (if k < s.len() {
            Some(k as nat)
        } else {
            None::<nat>
        }),
{
    lemma_first_match(s, pred);
    match first_match(s, pred) {
        Some(m) => {
            if (m as int) < k {
            } else if (m as int) > k {
                assert(!pred(s[k]));
            }
        },
        None => {
            if k < s.len() {
                assert(!pred(s[k]));
            }
        },
    }
}


/// Every element is strictly less than every later one (so no duplicates).
pub open spec fn strictly_sorted<V>(s: Seq<V>, lt: spec_fn(V, V) -> bool) -> bool {
    forall|i: int, j: int| 0 <= i < j < s.len() ==> lt(#[trigger] s[i], #[trigger] s[j])
}

/// `lt` is a strict total order.
pub open spec fn strict_total<V>(lt: spec_fn(V, V) -> bool) -> bool {
    &&& forall|a: V| !#[trigger] lt(a, a)
    &&& forall|a: V, b: V, c: V| #[trigger] lt(a, b) && #[trigger] lt(b, c) ==> lt(a, c)
    &&& forall|a: V, b: V| a != b ==> #[trigger] lt(a, b) || #[trigger] lt(b, a)
}

/// Inserting `x` where everything before is smaller and everything after is
/// larger keeps a sequence strictly sorted.
pub proof fn lemma_strictly_sorted_insert<V>(s: Seq<V>, k: int, x: V, lt: spec_fn(V, V) -> bool)
    requires
        strict_total(lt),
        strictly_sorted(s, lt),
        0 <= k <= s.len(),
        forall|j: int| 0 <= j < k ==> lt(#[trigger] s[j], x),
        k < s.len() ==> lt(x, s[k]),
    ensures
        strictly_sorted(s.insert(k, x), lt),
{
    let r = s.insert(k, x);
    assert forall|i: int, j: int| 0 <= i < j < r.len() implies lt(#[trigger] r[i], #[trigger] r[j]) by {
        if i < k && j == k {
        } else if i == k {
            assert(lt(x, s[k]));
            if j - 1 > k {
                assert(lt(s[k], s[j - 1]));
            }
        } else if i < k && j > k {
            assert(lt(s[i], x));
            assert(lt(x, s[k]));
            assert(lt(s[i], s[k]));
            if j - 1 > k {
                assert(lt(s[k], s[j - 1]));
            }
        }
    }
}

/// Removing an element keeps a sequence strictly sorted.
pub proof fn lemma_strictly_sorted_remove<V>(s: Seq<V>, k: int, lt: spec_fn(V, V) -> bool)
    requires
        strictly_sorted(s, lt),
        0 <= k < s.len(),
    ensures
        strictly_sorted(s.remove(k), lt),
{
    let r = s.remove(k);
    assert forall|i: int, j: int| 0 <= i < j < r.len() implies lt(#[trigger] r[i], #[trigger] r[j]) by {
        let si = if i < k { i } else { i + 1 };
        let sj = if j < k { j } else { j + 1 };
        assert(r[i] == s[si] && r[j] == s[sj]);
    }
}

/// Keeping a subsequence keeps a sequence strictly sorted.
pub proof fn lemma_strictly_sorted_keep_where<V>(s: Seq<V>, keep: spec_fn(V) -> bool, lt: spec_fn(V, V) -> bool)
    requires
        strictly_sorted(s, lt),
    ensures
        strictly_sorted(keep_where(s, keep), lt),
    decreases s.len(),
{
    if s.len() > 0 {
        let prefix = s.drop_last();
        assert(strictly_sorted(prefix, lt)) by {
            assert forall|i: int, j: int| 0 <= i < j < prefix.len() implies lt(#[trigger] prefix[i], #[trigger] prefix[j]) by {
                assert(prefix[i] == s[i] && prefix[j] == s[j]);
            }
        }
        lemma_strictly_sorted_keep_where(prefix, keep, lt);
        lemma_keep_where(prefix, keep, |a: V, b: V| false);
        if keep(s.last()) {
            let r = keep_where(s, keep);
            let rp = keep_where(prefix, keep);
            assert forall|i: int, j: int| 0 <= i < j < r.len() implies lt(#[trigger] r[i], #[trigger] r[j]) by {
                if j == r.len() - 1 {
                    assert(r[i] == rp[i]);
                    assert(prefix.contains(rp[i]));
                    let m = choose|m: int| 0 <= m < prefix.len() && prefix[m] == rp[i];
                    assert(s[m] == r[i]);
                    assert(s[s.len() - 1] == r[j]);
                } else {
                    assert(r[i] == rp[i] && r[j] == rp[j]);
                }
            }
        }
    }
}

/// In a strictly sorted sequence, equal elements sit at equal positions.
pub proof fn lemma_strictly_sorted_unique<V>(s: Seq<V>, i: int, j: int, lt: spec_fn(V, V) -> bool)
    requires
        strict_total(lt),
        strictly_sorted(s, lt),
        0 <= i < s.len(),
        0 <= j < s.len(),
        s[i] == s[j],
    ensures
        i == j,
{
    if i < j {
        assert(lt(s[i], s[j]));
    } else if j < i {
        assert(lt(s[j], s[i]));
    }
}


pub open spec fn lex_order() -> spec_fn(Seq<char>, Seq<char>) -> bool {
    |a: Seq<char>, b: Seq<char>| lex_lt(a, b)
}

pub proof fn lemma_lex_order()
    ensures
        strict_total(lex_order()),
{
    assert forall|a: Seq<char>| !#[trigger] lex_order()(a, a) by {
        lemma_lex_irreflexive(a);
    }
    assert forall|a: Seq<char>, b: Seq<char>, c: Seq<char>|
        #[trigger] lex_order()(a, b) && #[trigger] lex_order()(b, c) implies lex_order()(a, c) by {
        lemma_lex_transitive(a, b, c);
    }
    assert forall|a: Seq<char>, b: Seq<char>| a != b implies #[trigger] lex_order()(a, b)
        || #[trigger] lex_order()(b, a) by {
        lemma_lex_total(a, b);
    }
}

} // verus!
