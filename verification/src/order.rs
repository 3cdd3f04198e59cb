//! Orderings: strings by their bytes, and sorting.

use vstd::prelude::*;
use vstd::string::*;

verus! {

/// The lexicographic order of byte sequences.
pub open spec fn bytes_at_most(a: Seq<u8>, b: Seq<u8>) -> bool
    decreases a.len(),
{
    if a.len() == 0 {
        true
    } else if b.len() == 0 {
        false
    } else if a[0] != b[0] {
        a[0] < b[0]
    } else {
        bytes_at_most(a.drop_first(), b.drop_first())
    }
}

/// The order of strings: that of their bytes.
pub open spec fn text_at_most(a: Seq<char>, b: Seq<char>) -> bool {
    bytes_at_most(vstd::utf8::encode_utf8(a), vstd::utf8::encode_utf8(b))
}

proof fn lemma_bytes_total(a: Seq<u8>, b: Seq<u8>)
    ensures
        bytes_at_most(a, b) || bytes_at_most(b, a),
    decreases a.len(),
{
    if a.len() > 0 && b.len() > 0 && a[0] == b[0] {
        lemma_bytes_total(a.drop_first(), b.drop_first());
    }
}

proof fn lemma_bytes_transitive(a: Seq<u8>, b: Seq<u8>, c: Seq<u8>)
    requires
        bytes_at_most(a, b),
        bytes_at_most(b, c),
    ensures
        bytes_at_most(a, c),
    decreases a.len(),
{
    if a.len() > 0 && b.len() > 0 && c.len() > 0 && a[0] == b[0] && b[0] == c[0] {
        lemma_bytes_transitive(a.drop_first(), b.drop_first(), c.drop_first());
    }
}

proof fn lemma_bytes_antisymmetric(a: Seq<u8>, b: Seq<u8>)
    requires
        bytes_at_most(a, b),
        bytes_at_most(b, a),
    ensures
        a == b,
    decreases a.len(),
{
    if a.len() > 0 && b.len() > 0 {
        lemma_bytes_antisymmetric(a.drop_first(), b.drop_first());
        assert(a =~= seq![a[0]] + a.drop_first());
        assert(b =~= seq![b[0]] + b.drop_first());
    } else {
        assert(a =~= b);
    }
}

/// Of two texts one is at most the other.
pub proof fn text_order_total(a: Seq<char>, b: Seq<char>)
    ensures
        text_at_most(a, b) || text_at_most(b, a),
{
    lemma_bytes_total(vstd::utf8::encode_utf8(a), vstd::utf8::encode_utf8(b));
}

/// The order of texts is transitive.
pub proof fn text_order_transitive(a: Seq<char>, b: Seq<char>, c: Seq<char>)
    requires
        text_at_most(a, b),
        text_at_most(b, c),
    ensures
        text_at_most(a, c),
{
    lemma_bytes_transitive(
        vstd::utf8::encode_utf8(a),
        vstd::utf8::encode_utf8(b),
        vstd::utf8::encode_utf8(c),
    );
}

/// Two texts that are at most each other are one text.
pub proof fn text_order_antisymmetric(a: Seq<char>, b: Seq<char>)
    requires
        text_at_most(a, b),
        text_at_most(b, a),
    ensures
        a == b,
{
    lemma_bytes_antisymmetric(vstd::utf8::encode_utf8(a), vstd::utf8::encode_utf8(b));
    vstd::utf8::encode_utf8_decode_utf8(a);
    vstd::utf8::encode_utf8_decode_utf8(b);
}

/// Whether `a` comes no later than `b` in the order of strings.
pub fn text_le(a: &str, b: &str) -> (r: bool)
    ensures
        r == text_at_most(a@, b@),
{
    let x = a.as_bytes();
    let y = b.as_bytes();
    let mut i: usize = 0;
    assert(x@.skip(0) =~= x@);
    assert(y@.skip(0) =~= y@);
    while i < x.len() && i < y.len()
        invariant
            x@ == vstd::utf8::encode_utf8(a@),
            y@ == vstd::utf8::encode_utf8(b@),
            i <= x@.len(),
            i <= y@.len(),
            text_at_most(a@, b@) == bytes_at_most(x@.skip(i as int), y@.skip(i as int)),
        decreases x@.len() - i,
    {
        assert(x@.skip(i as int).drop_first() =~= x@.skip(i + 1));
        assert(y@.skip(i as int).drop_first() =~= y@.skip(i + 1));
        if x[i] != y[i] {
            return x[i] < y[i];
        }
        i += 1;
    }
    i == x.len()
}

/// A total preorder on the values of a type.
pub trait Ranked: Sized {
    /// Whether `self` comes no later than `other`.
    spec fn at_most(self, other: Self) -> bool;

    proof fn rank_total(a: Self, b: Self)
        ensures
            a.at_most(b) || b.at_most(a),
    ;

    proof fn rank_transitive(a: Self, b: Self, c: Self)
        requires
            a.at_most(b),
            b.at_most(c),
        ensures
            a.at_most(c),
    ;

    fn comes_first(&self, other: &Self) -> (r: bool)
        ensures
            r == self.at_most(*other),
    ;
}

/// Whether no value comes after a later one.
pub open spec fn in_order<T: Ranked>(s: Seq<T>) -> bool {
    forall|i: int, j: int|
        #![trigger s[i], s[j]]
        0 <= i < j < s.len() ==> s[i].at_most(s[j])
}

spec fn in_reverse_order<T: Ranked>(s: Seq<T>) -> bool {
    forall|i: int, j: int|
        #![trigger s[i], s[j]]
        0 <= i < j < s.len() ==> s[j].at_most(s[i])
}

spec fn bounded_by<T: Ranked>(low: Seq<T>, high: Seq<T>) -> bool {
    forall|i: int, j: int|
        #![trigger low[i], high[j]]
        0 <= i < low.len() && 0 <= j < high.len() ==> low[i].at_most(high[j])
}

proof fn lemma_push_multiset<T>(s: Seq<T>, x: T)
    ensures
        s.push(x).to_multiset() == s.to_multiset().insert(x),
{
    broadcast use vstd::seq_lib::group_to_multiset_ensures;

    assert(s.push(x).to_multiset() =~= s.to_multiset().insert(x));
}

proof fn lemma_append_multiset<T>(a: Seq<T>, b: Seq<T>)
    ensures
        (a + b).to_multiset() == a.to_multiset().add(b.to_multiset()),
{
    vstd::seq_lib::lemma_multiset_commutative(a, b);
}

proof fn lemma_no_values<T>(s: Seq<T>)
    requires
        s.len() == 0,
    ensures
        s.to_multiset() == vstd::multiset::Multiset::<T>::empty(),
{
    broadcast use vstd::seq_lib::group_to_multiset_ensures;

    assert(s.to_multiset() =~= vstd::multiset::Multiset::<T>::empty());
}

/// The values in the opposite order.
fn reversed<T: Ranked>(mut v: Vec<T>) -> (r: Vec<T>)
    requires
        in_reverse_order(v@),
    ensures
        in_order(r@),
        r@.to_multiset() == v@.to_multiset(),
{
    let ghost whole = v@.to_multiset();
    let mut out: Vec<T> = Vec::new();
    proof {
        lemma_no_values(out@);
    }
    loop
        invariant
            in_reverse_order(v@),
            in_order(out@),
            bounded_by(out@, v@),
            whole =~= v@.to_multiset().add(out@.to_multiset()),
        ensures
            v@.len() == 0,
            in_order(out@),
            whole =~= v@.to_multiset().add(out@.to_multiset()),
        decreases v@.len(),
    {
        let ghost before = v@;
        match v.pop() {
            None => {
                break;
            },
            Some(x) => {
                assert(before =~= v@.push(x));
                assert(before[before.len() - 1] == x);
                let ghost seen = out@;
                out.push(x);
                proof {
                    lemma_push_multiset(v@, x);
                    lemma_push_multiset(seen, x);
                }
                assert forall|i: int, j: int|
                    #![trigger out@[i], out@[j]]
                    0 <= i < j < out@.len() implies out@[i].at_most(out@[j]) by {
                    if j == out@.len() - 1 {
                        assert(seen[i].at_most(before[before.len() - 1]));
                    } else {
                        assert(seen[i].at_most(seen[j]));
                    }
                }
                assert forall|i: int, j: int|
                    #![trigger out@[i], v@[j]]
                    0 <= i < out@.len() && 0 <= j < v@.len() implies out@[i].at_most(v@[j]) by {
                    if i == out@.len() - 1 {
                        assert(before[before.len() - 1].at_most(before[j]));
                    } else {
                        assert(seen[i].at_most(before[j]));
                    }
                }
            },
        }
    }
    proof {
        lemma_no_values(v@);
    }
    out
}

/// The values of two ordered lists, from the last to the first.
fn merge_from_back<T: Ranked>(mut a: Vec<T>, mut b: Vec<T>) -> (r: Vec<T>)
    requires
        in_order(a@),
        in_order(b@),
    ensures
        in_reverse_order(r@),
        r@.to_multiset() == a@.to_multiset().add(b@.to_multiset()),
{
    let ghost whole = a@.to_multiset().add(b@.to_multiset());
    let mut out: Vec<T> = Vec::new();
    proof {
        lemma_no_values(out@);
    }
    while a.len() > 0 || b.len() > 0
        invariant
            in_order(a@),
            in_order(b@),
            in_reverse_order(out@),
            bounded_by(a@, out@),
            bounded_by(b@, out@),
            whole =~= a@.to_multiset().add(b@.to_multiset()).add(out@.to_multiset()),
        decreases a@.len() + b@.len(),
    {
        let from_a: bool = if a.len() == 0 {
            false
        } else if b.len() == 0 {
            true
        } else {
            proof {
                T::rank_total(a@[a@.len() - 1], b@[b@.len() - 1]);
            }
            !a[a.len() - 1].comes_first(&b[b.len() - 1])
        };
        let ghost (a0, b0, out0) = (a@, b@, out@);
        let next = if from_a {
            a.pop()
        } else {
            b.pop()
        };
        match next {
            None => {},
            Some(x) => {
                out.push(x);
                proof {
                    lemma_push_multiset(out0, x);
                    if from_a {
                        assert(a0 =~= a@.push(x));
                        lemma_push_multiset(a@, x);
                        assert(x == a0[a0.len() - 1]);
                    } else {
                        assert(b0 =~= b@.push(x));
                        lemma_push_multiset(b@, x);
                        assert(x == b0[b0.len() - 1]);
                    }
                    assert forall|i: int| 0 <= i < a0.len() implies (#[trigger] a0[i]).at_most(
                        x,
                    ) || (from_a && i == a0.len() - 1) by {
                        if !from_a && a0.len() > 0 {
                            let last = a0[a0.len() - 1];
                            assert(last.at_most(x));
                            if i < a0.len() - 1 {
                                assert(a0[i].at_most(last));
                                T::rank_transitive(a0[i], last, x);
                            }
                        }
                    }
                    assert forall|i: int| 0 <= i < b0.len() implies (#[trigger] b0[i]).at_most(
                        x,
                    ) || (!from_a && i == b0.len() - 1) by {
                        if from_a && b0.len() > 0 {
                            let last = b0[b0.len() - 1];
                            assert(last.at_most(x));
                            if i < b0.len() - 1 {
                                assert(b0[i].at_most(last));
                                T::rank_transitive(b0[i], last, x);
                            }
                        }
                    }
                    assert forall|i: int, j: int|
                        #![trigger out@[i], out@[j]]
                        0 <= i < j < out@.len() implies out@[j].at_most(out@[i]) by {
                        if j == out@.len() - 1 {
                            if from_a {
                                assert(a0[a0.len() - 1].at_most(out0[i]));
                            } else {
                                assert(b0[b0.len() - 1].at_most(out0[i]));
                            }
                        } else {
                            assert(out0[j].at_most(out0[i]));
                        }
                    }
                    assert forall|i: int, j: int|
                        #![trigger a@[i], out@[j]]
                        0 <= i < a@.len() && 0 <= j < out@.len() implies a@[i].at_most(
                        out@[j],
                    ) by {
                        if j == out@.len() - 1 {
                            assert(a0[i].at_most(x));
                        } else {
                            assert(a0[i].at_most(out0[j]));
                        }
                    }
                    assert forall|i: int, j: int|
                        #![trigger b@[i], out@[j]]
                        0 <= i < b@.len() && 0 <= j < out@.len() implies b@[i].at_most(
                        out@[j],
                    ) by {
                        if j == out@.len() - 1 {
                            assert(b0[i].at_most(x));
                        } else {
                            assert(b0[i].at_most(out0[j]));
                        }
                    }
                }
            },
        }
    }
    proof {
        lemma_no_values(a@);
        lemma_no_values(b@);
    }
    out
}

/// The values in order.
pub fn sort<T: Ranked>(v: Vec<T>) -> (r: Vec<T>)
    ensures
        in_order(r@),
        r@.to_multiset() == v@.to_multiset(),
        r@.len() == v@.len(),
    decreases v@.len(),
{
    if v.len() <= 1 {
        return v;
    }
    let mut low = v;
    let ghost whole = low@;
    let high = low.split_off(low.len() / 2);
    proof {
        assert(whole =~= low@ + high@);
        lemma_append_multiset(low@, high@);
    }
    let r = reversed(merge_from_back(sort(low), sort(high)));
    proof {
        vstd::seq_lib::to_multiset_len(r@);
        vstd::seq_lib::to_multiset_len(whole);
    }
    r
}

/// Two lists with the same values, changed value by value, have the same values.
pub proof fn lemma_same_values_map<A, B>(s: Seq<A>, t: Seq<A>, f: spec_fn(A) -> B)
    requires
        s.to_multiset() == t.to_multiset(),
    ensures
        s.map_values(f).to_multiset() == t.map_values(f).to_multiset(),
    decreases s.len(),
{
    broadcast use vstd::seq_lib::group_to_multiset_ensures;

    vstd::seq_lib::to_multiset_len(s);
    vstd::seq_lib::to_multiset_len(t);
    if s.len() == 0 {
        assert(s.map_values(f) =~= t.map_values(f));
    } else {
        let x = s.last();
        let n = s.len() - 1;
        assert(s[n] == x);
        assert(s.contains(x));
        assert(t.to_multiset().count(x) > 0);
        assert(t.contains(x));
        let j = choose|j: int| 0 <= j < t.len() && t[j] == x;
        assert(s.remove(n) =~= s.drop_last());
        assert(s.drop_last().to_multiset() =~= t.remove(j).to_multiset());
        lemma_same_values_map(s.drop_last(), t.remove(j), f);
        assert(s.map_values(f).drop_last() =~= s.drop_last().map_values(f));
        assert(t.map_values(f).remove(j) =~= t.remove(j).map_values(f));
        assert(s.map_values(f).remove(n) =~= s.map_values(f).drop_last());
        let (fs, ft) = (s.map_values(f), t.map_values(f));
        assert(fs.to_multiset() =~= fs.remove(n).to_multiset().insert(f(x)));
        assert(ft.to_multiset() =~= ft.remove(j).to_multiset().insert(f(x)));
    }
}

/// A value of one of two lists with the same values is a value of the other.
pub proof fn lemma_value_of_same<A>(s: Seq<A>, t: Seq<A>, i: int)
    requires
        s.to_multiset() == t.to_multiset(),
        0 <= i < s.len(),
    ensures
        exists|j: int| 0 <= j < t.len() && t[j] == s[i],
{
    broadcast use vstd::seq_lib::group_to_multiset_ensures;

    assert(s.contains(s[i]));
    assert(t.to_multiset().count(s[i]) > 0);
    assert(t.contains(s[i]));
}

/// The sum of a measure over some values.
pub open spec fn total<A>(s: Seq<A>, f: spec_fn(A) -> int) -> int
    decreases s.len(),
{
    if s.len() == 0 {
        0
    } else {
        total(s.drop_last(), f) + f(s.last())
    }
}

proof fn lemma_total_without<A>(s: Seq<A>, i: int, f: spec_fn(A) -> int)
    requires
        0 <= i < s.len(),
    ensures
        total(s, f) == total(s.remove(i), f) + f(s[i]),
    decreases s.len(),
{
    if i == s.len() - 1 {
        assert(s.remove(i) =~= s.drop_last());
    } else {
        lemma_total_without(s.drop_last(), i, f);
        assert(s.remove(i).drop_last() =~= s.drop_last().remove(i));
        assert(s.remove(i).last() == s.last());
    }
}

/// Two lists with the same values have the same sum.
pub proof fn lemma_same_values_total<A>(s: Seq<A>, t: Seq<A>, f: spec_fn(A) -> int)
    requires
        s.to_multiset() == t.to_multiset(),
    ensures
        total(s, f) == total(t, f),
    decreases s.len(),
{
    broadcast use vstd::seq_lib::group_to_multiset_ensures;

    vstd::seq_lib::to_multiset_len(s);
    vstd::seq_lib::to_multiset_len(t);
    if s.len() > 0 {
        let n = s.len() - 1;
        lemma_value_of_same(s, t, n);
        let j = choose|j: int| 0 <= j < t.len() && t[j] == s[n];
        assert(s.remove(n) =~= s.drop_last());
        assert(s.drop_last().to_multiset() =~= t.remove(j).to_multiset());
        lemma_same_values_total(s.drop_last(), t.remove(j), f);
        lemma_total_without(t, j, f);
    }
}

// ---------------------------------------------------------------------------
// Laws
// ---------------------------------------------------------------------------


/// The first byte in which two texts differ decides their order, and a text
/// comes before every longer one that begins with it.
pub proof fn first_difference_decides(a: Seq<char>, b: Seq<char>, k: int)
    requires
        0 <= k <= vstd::utf8::encode_utf8(a).len(),
        k <= vstd::utf8::encode_utf8(b).len(),
        vstd::utf8::encode_utf8(a).take(k) == vstd::utf8::encode_utf8(b).take(k),
    ensures
        ({
            let (x, y) = (vstd::utf8::encode_utf8(a), vstd::utf8::encode_utf8(b));
            &&& k == x.len() ==> text_at_most(a, b)
            &&& k == y.len() && k < x.len() ==> !text_at_most(a, b)
            &&& k < x.len() && k < y.len() && x[k] != y[k] ==> (text_at_most(a, b) <==> x[k] < y[k])
        }),
{
    lemma_same_beginning(vstd::utf8::encode_utf8(a), vstd::utf8::encode_utf8(b), k);
}

proof fn lemma_same_beginning(x: Seq<u8>, y: Seq<u8>, k: int)
    requires
        0 <= k <= x.len(),
        k <= y.len(),
        x.take(k) == y.take(k),
    ensures
        k == x.len() ==> bytes_at_most(x, y),
        k == y.len() && k < x.len() ==> !bytes_at_most(x, y),
        k < x.len() && k < y.len() && x[k] != y[k] ==> (bytes_at_most(x, y) <==> x[k] < y[k]),
    decreases k,
{
    if k > 0 {
        assert(x.take(k)[0] == x[0] && y.take(k)[0] == y[0]);
        let (u, v) = (x.drop_first(), y.drop_first());
        assert(u.take(k - 1) =~= x.take(k).drop_first());
        assert(v.take(k - 1) =~= y.take(k).drop_first());
        lemma_same_beginning(u, v, k - 1);
        if k < x.len() {
            assert(u[k - 1] == x[k]);
        }
        if k < y.len() {
            assert(v[k - 1] == y[k]);
        }
    }
}

} // verus!
