//! Lexicographic order on strings and a stable insertion sort keyed by a
//! string.

use vstd::prelude::*;

verus! {

/// `a` comes no later than `b` in lexicographic order of code points (the
/// order of `str`'s comparison operators).
pub open spec fn lex_le(a: Seq<char>, b: Seq<char>) -> bool
    decreases a.len(),
{
    if a.len() == 0 {
        true
    } else if b.len() == 0 {
        false
    } else if a[0] < b[0] {
        true
    } else if a[0] > b[0] {
        false
    } else {
        lex_le(a.drop_first(), b.drop_first())
    }
}

pub proof fn lemma_lex_le_total(a: Seq<char>, b: Seq<char>)
    ensures
        lex_le(a, b) || lex_le(b, a),
    decreases a.len(),
{
    if a.len() > 0 && b.len() > 0 && a[0] == b[0] {
        lemma_lex_le_total(a.drop_first(), b.drop_first());
    }
}

pub proof fn lemma_lex_le_reflexive(a: Seq<char>)
    ensures
        lex_le(a, a),
    decreases a.len(),
{
    if a.len() > 0 {
        lemma_lex_le_reflexive(a.drop_first());
    }
}

pub proof fn lemma_lex_le_antisymmetric(a: Seq<char>, b: Seq<char>)
    requires
        lex_le(a, b),
        lex_le(b, a),
    ensures
        a == b,
    decreases a.len(),
{
    if a.len() > 0 && b.len() > 0 {
        lemma_lex_le_antisymmetric(a.drop_first(), b.drop_first());
        assert(a =~= seq![a[0]] + a.drop_first());
        assert(b =~= seq![b[0]] + b.drop_first());
    }
}

pub proof fn lemma_lex_le_transitive(a: Seq<char>, b: Seq<char>, c: Seq<char>)
    requires
        lex_le(a, b),
        lex_le(b, c),
    ensures
        lex_le(a, c),
    decreases a.len(),
{
    if a.len() > 0 && b.len() > 0 && c.len() > 0 && a[0] == b[0] && b[0] == c[0] {
        lemma_lex_le_transitive(a.drop_first(), b.drop_first(), c.drop_first());
    }
}

/// Whether `a` comes no later than `b` in lexicographic order.
pub fn str_le(a: &str, b: &str) -> (r: bool)
    ensures
        r == lex_le(a@, b@),
{
    let na = a.unicode_len();
    let nb = b.unicode_len();
    let mut i: usize = 0;
    assert(a@.skip(0) =~= a@);
    assert(b@.skip(0) =~= b@);
    while i < na && i < nb
        invariant
            i <= na,
            i <= nb,
            na == a@.len(),
            nb == b@.len(),
            lex_le(a@, b@) == lex_le(a@.skip(i as int), b@.skip(i as int)),
        decreases na - i,
    {
        let ca = a.get_char(i);
        let cb = b.get_char(i);
        if ca < cb {
            return true;
        }
        if ca > cb {
            return false;
        }
        assert(a@.skip(i as int).drop_first() =~= a@.skip(i + 1));
        assert(b@.skip(i as int).drop_first() =~= b@.skip(i + 1));
        i = i + 1;
    }
    i == na
}

/// Values sorted by a string key.
pub trait SortKey {
    /// The key the value is ordered by.
    spec fn key(&self) -> Seq<char>;

    /// The key, as a string slice.
    fn key_str(&self) -> (k: &str)
        ensures
            k@ == self.key(),
    ;
}

impl SortKey for String {
    open spec fn key(&self) -> Seq<char> {
        self@
    }

    fn key_str(&self) -> (k: &str) {
        self.as_str()
    }
}

/// Keys never decrease along `s`.
pub open spec fn sorted_by_key<T: SortKey>(s: Seq<T>) -> bool {
    forall|i: int, j: int| 0 <= i < j < s.len() ==> lex_le(#[trigger] s[i].key(), #[trigger] s[j].key())
}

/// The elements of `s` whose key is `k`, in their order in `s`.
pub open spec fn with_key<T: SortKey>(s: Seq<T>, k: Seq<char>) -> Seq<T> {
    s.filter(has_key(k))
}

/// Whether a value's key is `k`.
pub open spec fn has_key<T: SortKey>(k: Seq<char>) -> spec_fn(T) -> bool {
    |x: T| x.key() == k
}

proof fn lemma_filter_none<T>(s: Seq<T>, p: spec_fn(T) -> bool)
    requires
        forall|i: int| 0 <= i < s.len() ==> !p(#[trigger] s[i]),
    ensures
        s.filter(p) =~= Seq::<T>::empty(),
{
    if s.filter(p).len() > 0 {
        let e = s.filter(p)[0];
        s.lemma_filter_pred(p, 0);
        assert(s.filter(p).contains(e));
        s.lemma_filter_contains_rev(p, e);
        let i = choose|i: int| 0 <= i < s.len() && s[i] == e;
        assert(!p(s[i]));
    }
}

/// Inserting `x` after every element whose key is not greater keeps the
/// sequence sorted and appends `x` to the elements of its key.
proof fn lemma_insert_sorted<T: SortKey>(r: Seq<T>, p: int, x: T)
    requires
        0 <= p <= r.len(),
        sorted_by_key(r),
        forall|i: int| 0 <= i < p ==> lex_le(#[trigger] r[i].key(), x.key()),
        p < r.len() ==> !lex_le(r[p].key(), x.key()),
    ensures
        sorted_by_key(r.insert(p, x)),
        forall|k: Seq<char>|
            #![trigger with_key(r.insert(p, x), k)]
            with_key(r.insert(p, x), k) == if k == x.key() {
                with_key(r, k).push(x)
            } else {
                with_key(r, k)
            },
{
    let r2 = r.insert(p, x);
    assert forall|i: int| p <= i < r.len() implies !lex_le(#[trigger] r[i].key(), x.key()) && lex_le(
        x.key(),
        r[i].key(),
    ) by {
        if lex_le(r[i].key(), x.key()) {
            if i > p {
                lemma_lex_le_transitive(r[p].key(), r[i].key(), x.key());
            }
        }
        lemma_lex_le_total(r[i].key(), x.key());
    }
    assert forall|i: int, j: int| 0 <= i < j < r2.len() implies lex_le(#[trigger] r2[i].key(), #[trigger] r2[j].key()) by {
        if i < p && j == p {
        } else if i < p && j > p {
            assert(r2[j] == r[j - 1]);
            assert(lex_le(r[i].key(), r[j - 1].key()));
        } else if i == p {
            assert(r2[j] == r[j - 1]);
        } else if i > p {
            assert(r2[i] == r[i - 1]);
            assert(r2[j] == r[j - 1]);
        } else {
            assert(r2[i] == r[i]);
            assert(r2[j] == r[j]);
        }
    }
    assert forall|k: Seq<char>|
        #![trigger with_key(r.insert(p, x), k)]
        with_key(r.insert(p, x), k) == if k == x.key() {
            with_key(r, k).push(x)
        } else {
            with_key(r, k)
        } by {
        let pred = has_key::<T>(k);
        let a = r.take(p);
        let b = r.skip(p);
        assert(r =~= a + b);
        assert(r2 =~= a + seq![x] + b);
        Seq::filter_distributes_over_add(a, b, pred);
        Seq::filter_distributes_over_add(a + seq![x], b, pred);
        Seq::filter_distributes_over_add(a, seq![x], pred);
        reveal_with_fuel(Seq::filter, 2);
        assert(seq![x].drop_last() =~= Seq::<T>::empty());
        if k == x.key() {
            assert forall|i: int| 0 <= i < b.len() implies !pred(#[trigger] b[i]) by {
                assert(b[i] == r[p + i]);
                lemma_lex_le_reflexive(x.key());
            }
            lemma_filter_none(b, pred);
            assert(seq![x].filter(pred) =~= seq![x]);
            assert(r2.filter(pred) =~= a.filter(pred).push(x));
            assert(r.filter(pred) =~= a.filter(pred));
        } else {
            assert(seq![x].filter(pred) =~= Seq::<T>::empty());
            assert(r2.filter(pred) =~= r.filter(pred));
        }
    }
}

/// Sorts `v` by key, keeping the order of elements with equal keys.
pub fn stable_sort<T: SortKey>(v: Vec<T>) -> (r: Vec<T>)
    ensures
        sorted_by_key(r@),
        r@.len() == v@.len(),
        forall|k: Seq<char>| #[trigger] with_key(r@, k) == with_key(v@, k),
{
    let ghost orig = v@;
    let mut src = v;
    let mut out: Vec<T> = Vec::new();
    let ghost mut done: int = 0;
    assert(orig.skip(0) =~= orig);
    assert forall|k: Seq<char>| #[trigger] with_key(out@, k) == with_key(orig.take(0), k) by {
        assert(out@ =~= orig.take(0));
    }
    while src.len() > 0
        invariant
            0 <= done <= orig.len(),
            src@ == orig.skip(done),
            out@.len() == done,
            sorted_by_key(out@),
            forall|k: Seq<char>| #[trigger] with_key(out@, k) == with_key(orig.take(done), k),
        decreases src@.len(),
    {
        let x = src.remove(0);
        assert(x == orig[done]);
        let mut p: usize = 0;
        while p < out.len() && str_le(out[p].key_str(), x.key_str())
            invariant
                p <= out@.len(),
                forall|i: int| 0 <= i < p ==> lex_le(#[trigger] out@[i].key(), x.key()),
            decreases out@.len() - p,
        {
            p = p + 1;
        }
        proof {
            lemma_insert_sorted(out@, p as int, x);
            assert(orig.take(done + 1) =~= orig.take(done).push(x));
            assert forall|k: Seq<char>| #[trigger] with_key(orig.take(done + 1), k) == if k == x.key() {
                with_key(orig.take(done), k).push(x)
            } else {
                with_key(orig.take(done), k)
            } by {
                orig.take(done).lemma_filter_push(x, has_key::<T>(k));
            }
            assert(src@ =~= orig.skip(done + 1));
        }
        out.insert(p, x);
        proof {
            done = done + 1;
        }
    }
    assert(orig.take(done) =~= orig);
    out
}


proof fn lemma_with_key_member<T: SortKey>(s: Seq<T>, k: Seq<char>)
    requires
        with_key(s, k).len() > 0,
    ensures
        exists|i: int| 0 <= i < s.len() && #[trigger] s[i].key() == k,
{
    let p = has_key::<T>(k);
    let e = s.filter(p)[0];
    s.lemma_filter_pred(p, 0);
    assert(s.filter(p).contains(e));
    s.lemma_filter_contains_rev(p, e);
    let i = choose|i: int| 0 <= i < s.len() && s[i] == e;
    assert(s[i].key() == k);
}

proof fn lemma_with_key_last<T: SortKey>(s: Seq<T>, k: Seq<char>)
    requires
        s.len() > 0,
    ensures
        with_key(s, k) == if s.last().key() == k {
            with_key(s.drop_last(), k).push(s.last())
        } else {
            with_key(s.drop_last(), k)
        },
{
    assert(s =~= s.drop_last().push(s.last()));
    s.drop_last().lemma_filter_push(s.last(), has_key::<T>(k));
}

/// A listing in key order is determined by the elements of each key and
/// their order: two such listings that agree on them are the same, so
/// sorting an already sorted listing changes nothing.
pub proof fn law_sorted_order_is_unique<T: SortKey>(a: Seq<T>, b: Seq<T>)
    requires
        sorted_by_key(a),
        sorted_by_key(b),
        forall|k: Seq<char>| #[trigger] with_key(a, k) == with_key(b, k),
    ensures
        a == b,
    decreases a.len() + b.len(),
{
    if a.len() == 0 && b.len() == 0 {
        assert(a =~= b);
    } else if a.len() == 0 || b.len() == 0 {
        let (s, t) = if a.len() == 0 { (b, a) } else { (a, b) };
        lemma_with_key_last(s, s.last().key());
        assert(with_key(s, s.last().key()).len() > 0);
        assert(with_key(t, s.last().key()).len() > 0);
        lemma_with_key_member(t, s.last().key());
    } else {
        let ka = a.last().key();
        let kb = b.last().key();
        lemma_with_key_last(a, ka);
        lemma_with_key_last(b, kb);
        assert(with_key(b, ka).len() > 0);
        assert(with_key(a, kb).len() > 0);
        lemma_with_key_member(b, ka);
        lemma_with_key_member(a, kb);
        let i = choose|i: int| 0 <= i < b.len() && #[trigger] b[i].key() == ka;
        let j = choose|j: int| 0 <= j < a.len() && #[trigger] a[j].key() == kb;
        if i < b.len() - 1 {
            assert(lex_le(b[i].key(), b[b.len() - 1].key()));
        } else {
            lemma_lex_le_reflexive(ka);
        }
        if j < a.len() - 1 {
            assert(lex_le(a[j].key(), a[a.len() - 1].key()));
        } else {
            lemma_lex_le_reflexive(kb);
        }
        lemma_lex_le_antisymmetric(ka, kb);
        lemma_with_key_last(a, ka);
        lemma_with_key_last(b, ka);
        assert(with_key(a, ka).last() == a.last());
        assert(with_key(b, ka).last() == b.last());
        assert(a.last() == b.last());
        let a2 = a.drop_last();
        let b2 = b.drop_last();
        assert forall|k: Seq<char>| #[trigger] with_key(a2, k) == with_key(b2, k) by {
            lemma_with_key_last(a, k);
            lemma_with_key_last(b, k);
            if k == ka {
                assert(with_key(a2, k) =~= with_key(a, k).drop_last());
                assert(with_key(b2, k) =~= with_key(b, k).drop_last());
            }
        }
        assert(sorted_by_key(a2)) by {
            assert forall|x: int, y: int| 0 <= x < y < a2.len() implies lex_le(#[trigger] a2[x].key(), #[trigger] a2[y].key()) by {
                assert(a2[x] == a[x] && a2[y] == a[y]);
            }
        }
        assert(sorted_by_key(b2)) by {
            assert forall|x: int, y: int| 0 <= x < y < b2.len() implies lex_le(#[trigger] b2[x].key(), #[trigger] b2[y].key()) by {
                assert(b2[x] == b[x] && b2[y] == b[y]);
            }
        }
        law_sorted_order_is_unique(a2, b2);
        assert(a =~= a2.push(a.last()));
        assert(b =~= b2.push(b.last()));
    }
}


/// `a` is a prefix of `b`, or they first differ at a place where `a`
/// holds the smaller character.
pub open spec fn precedes(a: Seq<char>, b: Seq<char>) -> bool {
    ||| (a.len() <= b.len() && a == b.take(a.len() as int))
    ||| exists|i: int|
        0 <= i < a.len() && i < b.len() && a.take(i) == b.take(i) && #[trigger] a[i] < b[i]
}

/// The listing order: `a` comes no later than `b` exactly when `a` is a
/// prefix of `b` or, at the first place they differ, `a`'s character has
/// the smaller code point.
pub proof fn law_lex_order_is_dictionary_order(a: Seq<char>, b: Seq<char>)
    ensures
        lex_le(a, b) <==> precedes(a, b),
    decreases a.len(),
{
    if a.len() > 0 && b.len() > 0 {
        let a2 = a.drop_first();
        let b2 = b.drop_first();
        law_lex_order_is_dictionary_order(a2, b2);
        if a[0] < b[0] {
            assert(a.take(0) =~= b.take(0));
            assert(precedes(a, b));
        } else if a[0] > b[0] {
            if precedes(a, b) {
                if a.len() <= b.len() && a == b.take(a.len() as int) {
                    assert(a[0] == b.take(a.len() as int)[0]);
                } else {
                    let i = choose|i: int|
                        0 <= i < a.len() && i < b.len() && a.take(i) == b.take(i) && #[trigger] a[i]
                            < b[i];
                    if i > 0 {
                        assert(a[0] == a.take(i)[0]);
                        assert(b[0] == b.take(i)[0]);
                    }
                }
            }
        } else {
            if precedes(a2, b2) {
                if a2.len() <= b2.len() && a2 == b2.take(a2.len() as int) {
                    assert forall|k: int| 0 <= k < a.len() implies a[k] == b[k] by {
                        if k > 0 {
                            assert(a[k] == a2[k - 1]);
                            assert(a2[k - 1] == b2.take(a2.len() as int)[k - 1]);
                            assert(b[k] == b2[k - 1]);
                        }
                    }
                    assert(a =~= b.take(a.len() as int));
                } else {
                    let i = choose|i: int|
                        0 <= i < a2.len() && i < b2.len() && a2.take(i) == b2.take(i) && #[trigger] a2[i]
                            < b2[i];
                    assert(a.take(i + 1) =~= seq![a[0]] + a2.take(i));
                    assert(b.take(i + 1) =~= seq![b[0]] + b2.take(i));
                    assert(a[i + 1] == a2[i]);
                    assert(precedes(a, b));
                }
            }
            if precedes(a, b) {
                if a.len() <= b.len() && a == b.take(a.len() as int) {
                    assert(a2 =~= b2.take(a2.len() as int));
                } else {
                    let i = choose|i: int|
                        0 <= i < a.len() && i < b.len() && a.take(i) == b.take(i) && #[trigger] a[i]
                            < b[i];
                    assert(i > 0);
                    assert(a2.take(i - 1) =~= a.take(i).drop_first());
                    assert(b2.take(i - 1) =~= b.take(i).drop_first());
                    assert(a2[i - 1] == a[i]);
                    assert(precedes(a2, b2));
                }
            }
        }
    } else if a.len() == 0 {
        assert(a =~= b.take(0));
    } else {
        if precedes(a, b) {
            if a.len() <= b.len() {
            } else {
                let i = choose|i: int|
                    0 <= i < a.len() && i < b.len() && a.take(i) == b.take(i) && #[trigger] a[i] < b[i];
            }
        }
    }
}

} // verus!
