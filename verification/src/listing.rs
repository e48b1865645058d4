//! Directory listings: the entries with a given beginning, in a stable
//! order.

use crate::text;
use vstd::prelude::*;

verus! {

/// The texts of some names.
pub open spec fn texts(names: Seq<String>) -> Seq<Seq<char>> {
    names.map_values(|name: String| name@)
}

/// Does `a` stand before `b`, or is it the same, in the order in which
/// texts are compared character by character?
pub open spec fn not_after(a: Seq<char>, b: Seq<char>) -> bool
    decreases a.len(),
{
    if a.len() == 0 {
        true
    } else if b.len() == 0 {
        false
    } else if a[0] != b[0] {
        a[0] < b[0]
    } else {
        not_after(a.drop_first(), b.drop_first())
    }
}

/// Are the texts in order?
pub open spec fn in_order(texts: Seq<Seq<char>>) -> bool {
    forall|i: int, j: int| 0 <= i <= j < texts.len() ==> not_after(texts[i], texts[j])
}

/// Those of the texts that begin with `prefix`.
pub open spec fn beginning_with(texts: Seq<Seq<char>>, prefix: Seq<char>) -> Seq<Seq<char>> {
    texts.filter(|text: Seq<char>| prefix.is_prefix_of(text))
}

/// Are `found` the names with the given beginning, each as often as it
/// occurs, in order?
pub open spec fn is_listing(names: Seq<String>, prefix: Seq<char>, found: Seq<String>) -> bool {
    &&& in_order(texts(found))
    &&& texts(found).to_multiset() == beginning_with(texts(names), prefix).to_multiset()
}

proof fn order_is_reflexive(a: Seq<char>)
    ensures
        not_after(a, a),
    decreases a.len(),
{
    if a.len() > 0 {
        order_is_reflexive(a.drop_first());
    }
}

proof fn order_is_total(a: Seq<char>, b: Seq<char>)
    ensures
        not_after(a, b) || not_after(b, a),
    decreases a.len(),
{
    if a.len() > 0 && b.len() > 0 && a[0] == b[0] {
        order_is_total(a.drop_first(), b.drop_first());
    }
}

proof fn order_is_transitive(a: Seq<char>, b: Seq<char>, c: Seq<char>)
    requires
        not_after(a, b),
        not_after(b, c),
    ensures
        not_after(a, c),
    decreases a.len(),
{
    if a.len() > 0 && b.len() > 0 && c.len() > 0 && a[0] == b[0] && b[0] == c[0] {
        order_is_transitive(a.drop_first(), b.drop_first(), c.drop_first());
    }
}

/// Does `a` stand before `b`, or is it the same?
fn precedes(a: &str, b: &str) -> (yes: bool)
    ensures
        yes == not_after(a@, b@),
{
    let n: usize = a.unicode_len();
    let m: usize = b.unicode_len();
    let mut i: usize = 0;
    assert(a@.skip(0) =~= a@);
    assert(b@.skip(0) =~= b@);
    while i < n
        invariant
            i <= n,
            i <= m,
            n == a@.len(),
            m == b@.len(),
            not_after(a@, b@) == not_after(a@.skip(i as int), b@.skip(i as int)),
        decreases n - i,
    {
        let ghost rest_a = a@.skip(i as int);
        let ghost rest_b = b@.skip(i as int);
        if i == m {
            return false;
        }
        let c = a.get_char(i);
        let d = b.get_char(i);
        assert(rest_a[0] == c);
        assert(rest_b[0] == d);
        if c != d {
            return c < d;
        }
        assert(rest_a.drop_first() =~= a@.skip(i + 1));
        assert(rest_b.drop_first() =~= b@.skip(i + 1));
        i = i + 1;
    }
    true
}

/// Puts a name in its place among names in order.
fn insert_in_order(names: &mut Vec<String>, name: String)
    requires
        in_order(texts(old(names)@)),
    ensures
        in_order(texts(final(names)@)),
        texts(final(names)@).to_multiset() == texts(old(names)@).to_multiset().insert(name@),
{
    let n: usize = names.len();
    let mut at: usize = 0;
    while at < n && precedes(names[at].as_str(), name.as_str())
        invariant
            at <= n,
            n == names@.len(),
            in_order(texts(names@)),
            forall|i: int| 0 <= i < at ==> not_after(#[trigger] texts(names@)[i], name@),
        decreases n - at,
    {
        assert(texts(names@)[at as int] == names@[at as int]@);
        at = at + 1;
    }
    let ghost before = texts(names@);
    let ghost word = name@;
    proof {
        if at < n {
            assert(before[at as int] == names@[at as int]@);
            order_is_total(before[at as int], word);
        }
    }
    names.insert(at, name);
    proof {
        let after = texts(names@);
        assert(after =~= before.insert(at as int, word));
        assert forall|i: int, j: int| 0 <= i <= j < after.len() implies not_after(
            after[i],
            after[j],
        ) by {
            if i == at && j == at {
                order_is_reflexive(word);
            } else if i < at && j < at {
                assert(not_after(before[i], before[j]));
            } else if i > at && j > at {
                assert(not_after(before[i - 1], before[j - 1]));
            } else if i < at && j > at {
                assert(not_after(before[i], before[j - 1]));
            } else if j == at {
                assert(not_after(before[i], word));
            } else {
                assert(not_after(before[at as int], before[j - 1]));
                order_is_transitive(word, before[at as int], before[j - 1]);
            }
        }
        after.to_multiset_ensures();
        assert(after.remove(at as int) =~= before);
        assert(after[at as int] == word);
        assert(after.contains(word));
        assert(after.to_multiset() =~= before.to_multiset().insert(word));
    }
}

/// The names that begin with `prefix`, in order.
pub fn names_with_prefix(names: &Vec<String>, prefix: &str) -> (found: Vec<String>)
    ensures
        is_listing(names@, prefix@, found@),
{
    let ghost all = texts(names@);
    let ghost fitting = |text: Seq<char>| prefix@.is_prefix_of(text);
    let mut found: Vec<String> = Vec::new();
    let n: usize = names.len();
    let mut i: usize = 0;
    proof {
        reveal(Seq::filter);
        assert(all.take(0).filter(fitting) =~= Seq::<Seq<char>>::empty());
        assert(texts(found@) =~= Seq::<Seq<char>>::empty());
    }
    while i < n
        invariant
            i <= n,
            n == names@.len(),
            all == texts(names@),
            fitting == (|text: Seq<char>| prefix@.is_prefix_of(text)),
            in_order(texts(found@)),
            texts(found@).to_multiset() == all.take(i as int).filter(fitting).to_multiset(),
        decreases n - i,
    {
        proof {
            reveal(Seq::filter);
            assert(all.take(i + 1).drop_last() =~= all.take(i as int));
            assert(all.take(i + 1).last() == names@[i as int]@);
        }
        if text::starts_with(names[i].as_str(), prefix) {
            let name = names[i].as_str().to_string();
            let ghost word = name@;
            insert_in_order(&mut found, name);
            proof {
                let earlier = all.take(i as int).filter(fitting);
                earlier.to_multiset_ensures();
                assert(earlier.push(word).to_multiset() =~= earlier.to_multiset().insert(word));
            }
        }
        i = i + 1;
    }
    assert(all.take(n as int) =~= all);
    found
}

/// The order is the same whatever order the directory was read in: two
/// listings of the same names are the same.
pub proof fn listing_is_stable(a: Seq<Seq<char>>, b: Seq<Seq<char>>)
    requires
        in_order(a),
        in_order(b),
        a.to_multiset() == b.to_multiset(),
    ensures
        a == b,
    decreases a.len(),
{
    a.to_multiset_ensures();
    b.to_multiset_ensures();
    assert(a.len() == b.len());
    if a.len() > 0 {
        let last_a = a.last();
        let last_b = b.last();
        assert(a.contains(last_a)) by {
            assert(a[a.len() - 1] == last_a);
        }
        assert(b.contains(last_b)) by {
            assert(b[b.len() - 1] == last_b);
        }
        assert(b.to_multiset().count(last_a) > 0);
        assert(b.contains(last_a));
        assert(a.to_multiset().count(last_b) > 0);
        assert(a.contains(last_b));
        let i = choose|i: int| 0 <= i < b.len() && b[i] == last_a;
        let j = choose|j: int| 0 <= j < a.len() && a[j] == last_b;
        assert(not_after(b[i], b[b.len() - 1]));
        assert(not_after(a[j], a[a.len() - 1]));
        order_is_antisymmetric(last_a, last_b);
        let shorter_a = a.drop_last();
        let shorter_b = b.drop_last();
        assert(a.remove(a.len() - 1) =~= shorter_a);
        assert(b.remove(b.len() - 1) =~= shorter_b);
        assert forall|p: int, q: int| 0 <= p <= q < shorter_a.len() implies not_after(
            shorter_a[p],
            shorter_a[q],
        ) by {
            assert(not_after(a[p], a[q]));
        }
        assert forall|p: int, q: int| 0 <= p <= q < shorter_b.len() implies not_after(
            shorter_b[p],
            shorter_b[q],
        ) by {
            assert(not_after(b[p], b[q]));
        }
        listing_is_stable(shorter_a, shorter_b);
        assert(a =~= shorter_a.push(last_a));
        assert(b =~= shorter_b.push(last_b));
    } else {
        assert(a =~= b);
    }
}

proof fn order_is_antisymmetric(a: Seq<char>, b: Seq<char>)
    requires
        not_after(a, b),
        not_after(b, a),
    ensures
        a == b,
    decreases a.len(),
{
    if a.len() > 0 && b.len() > 0 {
        let x = a.drop_first();
        let y = b.drop_first();
        assert(a[0] == b[0]);
        order_is_antisymmetric(x, y);
        assert(x.len() == a.len() - 1);
        assert(y.len() == b.len() - 1);
        assert forall|i: int| 0 <= i < a.len() implies a[i] == b[i] by {
            if i > 0 {
                assert(x[i - 1] == y[i - 1]);
            }
        }
        assert(a =~= b);
    } else {
        assert(a =~= b);
    }
}

/// Two texts are in order where the first is the beginning of the second, or
/// has the smaller character where they first differ.
pub proof fn order_is_that_of_the_first_difference(a: Seq<char>, b: Seq<char>)
    ensures
        not_after(a, b) <==> a.is_prefix_of(b) || exists|k: int|
            0 <= k < a.len() && k < b.len() && a.take(k) == b.take(k) && #[trigger] a[k] < b[k],
    decreases a.len(),
{
    if a.len() > 0 && b.len() > 0 && a[0] == b[0] {
        let x = a.drop_first();
        let y = b.drop_first();
        order_is_that_of_the_first_difference(x, y);
        if x.is_prefix_of(y) {
            assert forall|i: int| 0 <= i < a.len() implies a[i] == b[i] by {
                if i > 0 {
                    assert(x[i - 1] == y[i - 1]);
                }
            }
            assert(a =~= b.subrange(0, a.len() as int));
        }
        if a.is_prefix_of(b) {
            assert forall|i: int| 0 <= i < x.len() implies x[i] == y[i] by {
                assert(a[i + 1] == b[i + 1]);
            }
            assert(x =~= y.subrange(0, x.len() as int));
        }
        if exists|k: int|
            0 <= k < x.len() && k < y.len() && x.take(k) == y.take(k) && #[trigger] x[k] < y[k] {
            let k = choose|k: int|
                0 <= k < x.len() && k < y.len() && x.take(k) == y.take(k) && #[trigger] x[k]
                    < y[k];
            let c = a.take(k + 1);
            let d = b.take(k + 1);
            assert forall|i: int| 0 <= i < c.len() implies c[i] == d[i] by {
                if i > 0 {
                    assert(x.take(k)[i - 1] == y.take(k)[i - 1]);
                }
            }
            assert(c =~= d);
            assert(a[k + 1] < b[k + 1]);
        }
        if exists|k: int|
            0 <= k < a.len() && k < b.len() && a.take(k) == b.take(k) && #[trigger] a[k] < b[k] {
            let k = choose|k: int|
                0 <= k < a.len() && k < b.len() && a.take(k) == b.take(k) && #[trigger] a[k]
                    < b[k];
            let c = x.take(k - 1);
            let d = y.take(k - 1);
            assert forall|i: int| 0 <= i < c.len() implies c[i] == d[i] by {
                assert(a.take(k)[i + 1] == b.take(k)[i + 1]);
            }
            assert(c =~= d);
            assert(x[k - 1] < y[k - 1]);
        }
    } else if a.len() > 0 && b.len() > 0 {
        assert(a.take(0) =~= b.take(0));
        if a.is_prefix_of(b) {
            assert(a[0] == b.subrange(0, a.len() as int)[0]);
        }
        assert forall|k: int|
            0 <= k < a.len() && k < b.len() && a.take(k) == b.take(k) && #[trigger] a[k]
                < b[k] implies a[0] < b[0] by {
            if k > 0 {
                assert(a.take(k)[0] == b.take(k)[0]);
            }
        }
    } else if a.len() == 0 {
        assert(a =~= b.subrange(0, 0));
    }
}

/// A listing holds the names that begin as asked, and no others.
pub proof fn listing_holds_what_begins_so(
    names: Seq<String>,
    prefix: Seq<char>,
    found: Seq<String>,
    text: Seq<char>,
)
    requires
        is_listing(names, prefix, found),
    ensures
        texts(found).contains(text) <==> texts(names).contains(text) && prefix.is_prefix_of(text),
{
    let fitting = |text: Seq<char>| prefix.is_prefix_of(text);
    let all = texts(names);
    let kept = beginning_with(all, prefix);
    texts(found).to_multiset_ensures();
    kept.to_multiset_ensures();
    assert(texts(found).contains(text) <==> texts(found).to_multiset().count(text) > 0);
    assert(kept.contains(text) <==> kept.to_multiset().count(text) > 0);
    if kept.contains(text) {
        let i = choose|i: int| 0 <= i < kept.len() && kept[i] == text;
        all.lemma_filter_pred(fitting, i);
        all.lemma_filter_contains_rev(fitting, text);
    }
    if all.contains(text) && prefix.is_prefix_of(text) {
        let i = choose|i: int| 0 <= i < all.len() && all[i] == text;
        all.lemma_filter_contains(fitting, i);
    }
}

} // verus!
