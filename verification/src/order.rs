//! Order: texts by their characters, and a stable sort.

use vstd::prelude::*;
use vstd::string::*;

use crate::text::{chars_of, same};

verus! {

/// Whether one text comes before another or equals it, character by
/// character.
pub open spec fn lex_le(a: Seq<char>, b: Seq<char>) -> bool
    decreases a.len(),
{
    if a.len() == 0 {
        true
    } else if b.len() == 0 {
        false
    } else if a[0] == b[0] {
        lex_le(a.skip(1), b.skip(1))
    } else {
        a[0] < b[0]
    }
}

pub proof fn lemma_lex_total(a: Seq<char>, b: Seq<char>)
    ensures
        lex_le(a, b) || lex_le(b, a),
    decreases a.len(),
{
    if a.len() > 0 && b.len() > 0 && a[0] == b[0] {
        lemma_lex_total(a.skip(1), b.skip(1));
    }
}

pub proof fn lemma_lex_transitive(a: Seq<char>, b: Seq<char>, c: Seq<char>)
    requires
        lex_le(a, b),
        lex_le(b, c),
    ensures
        lex_le(a, c),
    decreases a.len(),
{
    if a.len() > 0 && b.len() > 0 && c.len() > 0 && a[0] == b[0] && b[0] == c[0] {
        lemma_lex_transitive(a.skip(1), b.skip(1), c.skip(1));
    }
}

pub proof fn lemma_lex_antisymmetric(a: Seq<char>, b: Seq<char>)
    requires
        lex_le(a, b),
        lex_le(b, a),
    ensures
        a == b,
    decreases a.len(),
{
    if a.len() > 0 && b.len() > 0 {
        lemma_lex_antisymmetric(a.skip(1), b.skip(1));
        assert(a =~= seq![a[0]] + a.skip(1));
        assert(b =~= seq![b[0]] + b.skip(1));
    } else {
        assert(a =~= b);
    }
}

/// Whether one text comes before another or equals it.
pub fn at_most(a: &str, b: &str) -> (r: bool)
    ensures
        r == lex_le(a@, b@),
{
    let x: Vec<char> = chars_of(a);
    let y: Vec<char> = chars_of(b);
    let mut i: usize = 0;
    assert(x@.skip(0) =~= x@ && y@.skip(0) =~= y@);
    while i < x.len() && i < y.len() && x[i] == y[i]
        invariant
            i <= x@.len(),
            i <= y@.len(),
            x@ == a@,
            y@ == b@,
            lex_le(a@, b@) == lex_le(x@.skip(i as int), y@.skip(i as int)),
        decreases x@.len() - i,
    {
        assert(x@.skip(i as int).skip(1) =~= x@.skip(i + 1));
        assert(y@.skip(i as int).skip(1) =~= y@.skip(i + 1));
        i += 1;
    }
    if i == x.len() {
        true
    } else if i == y.len() {
        false
    } else {
        x[i] < y[i]
    }
}

/// Values that can be put in a row. Two values may rank alike without being
/// the same.
pub trait Ranked: Sized {
    spec fn le(self, other: Self) -> bool;

    proof fn le_total(a: Self, b: Self)
        ensures
            a.le(b) || b.le(a),
    ;

    proof fn le_transitive(a: Self, b: Self, c: Self)
        requires
            a.le(b),
            b.le(c),
        ensures
            a.le(c),
    ;
}

/// Things that are put in a row by what they say.
pub trait Sortable: View + Sized where <Self as View>::V: Ranked {
    fn no_later(&self, other: &Self) -> (r: bool)
        ensures
            r == self@.le(other@),
    ;
}

/// What the things in a row say.
pub open spec fn views<T: View>(s: Seq<T>) -> Seq<T::V> {
    Seq::new(s.len(), |i: int| s[i]@)
}

/// A value put into a row: behind everything that ranks no higher.
pub open spec fn insert<T: Ranked>(s: Seq<T>, x: T) -> Seq<T>
    decreases s.len(),
{
    if s.len() == 0 || s.last().le(x) {
        s.push(x)
    } else {
        insert(s.drop_last(), x).push(s.last())
    }
}

/// The values in rank order. Those that rank alike keep the order they had.
pub open spec fn stable_sort<T: Ranked>(s: Seq<T>) -> Seq<T>
    decreases s.len(),
{
    if s.len() == 0 {
        s
    } else {
        insert(stable_sort(s.drop_last()), s.last())
    }
}

pub open spec fn sorted<T: Ranked>(s: Seq<T>) -> bool {
    forall|i: int, j: int| 0 <= i <= j < s.len() ==> #[trigger] s[i].le(#[trigger] s[j])
}

/// What a row holds with one more value behind.
pub proof fn lemma_push_contains<T>(s: Seq<T>, x: T, y: T)
    ensures
        s.push(x).contains(y) <==> s.contains(y) || x == y,
{
    if s.contains(y) {
        let i = choose|i: int| 0 <= i < s.len() && s[i] == y;
        assert(s.push(x)[i] == y);
    }
    if x == y {
        assert(s.push(x)[s.len() as int] == y);
    }
    if s.push(x).contains(y) {
        let i = choose|i: int| 0 <= i < s.push(x).len() && s.push(x)[i] == y;
        if i < s.len() {
            assert(s[i] == y);
        }
    }
}

proof fn lemma_insert<T: Ranked>(s: Seq<T>, x: T)
    requires
        sorted(s),
    ensures
        sorted(insert(s, x)),
        insert(s, x).len() == s.len() + 1,
        insert(s, x).to_multiset() =~= s.to_multiset().insert(x),
        forall|e: T| #[trigger] insert(s, x).contains(e) ==> e == x || s.contains(e),
    decreases s.len(),
{
    broadcast use vstd::seq_lib::group_to_multiset_ensures;

    let r = insert(s, x);
    T::le_total(x, x);
    if s.len() == 0 {
        assert forall|i: int, j: int| 0 <= i <= j < r.len() implies #[trigger] r[i].le(
            #[trigger] r[j],
        ) by {
            assert(i == 0 && j == 0);
        }
    } else if s.last().le(x) {
        assert forall|i: int, j: int| 0 <= i <= j < r.len() implies #[trigger] r[i].le(
            #[trigger] r[j],
        ) by {
            if j == s.len() && i < j {
                assert(s[i].le(s[s.len() - 1]));
                T::le_transitive(s[i], s.last(), x);
            }
        }
    } else {
        let t = s.drop_last();
        lemma_insert(t, x);
        let q = insert(t, x);
        let last = s.last();
        T::le_total(x, last);
        T::le_total(last, last);
        assert forall|i: int, j: int| 0 <= i <= j < r.len() implies #[trigger] r[i].le(
            #[trigger] r[j],
        ) by {
            if j == r.len() - 1 && i < j {
                assert(q.contains(q[i]));
                if q[i] != x {
                    let k = choose|k: int| 0 <= k < t.len() && t[k] == q[i];
                    assert(s[k].le(s[s.len() - 1]));
                }
            } else if j < r.len() - 1 {
                assert(q[i].le(q[j]));
            }
        }
        assert(s =~= t.push(last));
        assert(t.push(last).to_multiset() =~= t.to_multiset().insert(last));
        assert(q.push(last).to_multiset() =~= q.to_multiset().insert(last));
    }
    assert forall|e: T| #[trigger] r.contains(e) implies e == x || s.contains(e) by {
        if !(s.len() == 0 || s.last().le(x)) {
            let q = insert(s.drop_last(), x);
            let i = choose|i: int| 0 <= i < r.len() && r[i] == e;
            if i == r.len() - 1 {
                assert(e == s[s.len() - 1]);
            } else {
                assert(q[i] == e);
                assert(q.contains(e));
                if e != x {
                    let k = choose|k: int| 0 <= k < s.drop_last().len() && s.drop_last()[k] == e;
                    assert(s[k] == e);
                }
            }
        } else {
            let i = choose|i: int| 0 <= i < r.len() && r[i] == e;
            if i < s.len() {
                assert(s[i] == e);
            }
        }
    }
}

/// Sorting puts the values in rank order and loses or invents none.
pub proof fn sorting_keeps_every_value<T: Ranked>(s: Seq<T>)
    ensures
        sorted(stable_sort(s)),
        stable_sort(s).len() == s.len(),
        stable_sort(s).to_multiset() =~= s.to_multiset(),
    decreases s.len(),
{
    broadcast use vstd::seq_lib::group_to_multiset_ensures;

    if s.len() > 0 {
        let t = s.drop_last();
        sorting_keeps_every_value(t);
        lemma_insert(stable_sort(t), s.last());
        assert(s =~= t.push(s.last()));
    }
}

/// What is already in rank order is left as it is.
pub proof fn sorting_sorted_changes_nothing<T: Ranked>(s: Seq<T>)
    requires
        sorted(s),
    ensures
        stable_sort(s) == s,
    decreases s.len(),
{
    if s.len() > 0 {
        let t = s.drop_last();
        assert(sorted(t)) by {
            assert forall|i: int, j: int| 0 <= i <= j < t.len() implies #[trigger] t[i].le(
                #[trigger] t[j],
            ) by {
                assert(s[i].le(s[j]));
            }
        }
        sorting_sorted_changes_nothing(t);
        if t.len() > 0 {
            assert(s[s.len() - 2].le(s[s.len() - 1]));
        }
        assert(t.push(s.last()) =~= s);
    }
}

fn insert_into<T: Sortable>(v: &mut Vec<T>, x: T) where <T as View>::V: Ranked
    ensures
        views(final(v)@) == insert(views(old(v)@), x@),
{
    let mut n: usize = v.len();
    let ghost all = views(v@);
    assert(all.take(n as int) =~= all);
    assert(insert(all, x@) + all.skip(n as int) =~= insert(all, x@));
    while n > 0 && !v[n - 1].no_later(&x)
        invariant
            n <= v@.len(),
            views(v@) == all,
            insert(all, x@) == insert(all.take(n as int), x@) + all.skip(n as int),
        decreases n,
    {
        let ghost t = all.take(n as int);
        assert(t.last() == v@[n - 1]@);
        assert(t.drop_last() =~= all.take(n - 1));
        assert(insert(t.drop_last(), x@).push(t.last()) + all.skip(n as int) =~= insert(
            t.drop_last(),
            x@,
        ) + all.skip(n - 1));
        n -= 1;
    }
    let ghost t = all.take(n as int);
    proof {
        if n > 0 {
            assert(t.last() == v@[n - 1]@);
        }
    }
    assert(insert(t, x@) == t.push(x@));
    v.insert(n, x);
    assert(views(v@) =~= t.push(x@) + all.skip(n as int));
}

/// Put the values in rank order, keeping the order of those that rank alike.
pub fn sort<T: Sortable>(values: Vec<T>) -> (r: Vec<T>) where <T as View>::V: Ranked
    ensures
        views(r@) == stable_sort(views(values@)),
{
    let mut v: Vec<T> = values;
    let mut out: Vec<T> = Vec::new();
    let ghost all = views(v@);
    let ghost mut k: int = 0;
    assert(all.skip(0) =~= all);
    assert(all.take(0) =~= Seq::<T::V>::empty());
    assert(views(out@) =~= Seq::<T::V>::empty());
    while v.len() > 0
        invariant
            0 <= k <= all.len(),
            views(v@) == all.skip(k),
            views(out@) == stable_sort(all.take(k)),
        decreases v@.len(),
    {
        let ghost was = v@;
        let x: T = v.remove(0);
        insert_into(&mut out, x);
        proof {
            assert(views(was).len() == was.len());
            assert(views(was)[0] == x@);
            assert(all.take(k + 1).drop_last() =~= all.take(k));
            assert(all.take(k + 1).last() == x@);
            assert(views(v@) =~= views(was).skip(1));
            assert(all.skip(k).skip(1) =~= all.skip(k + 1));
            k = k + 1;
        }
    }
    assert(views(v@).len() == v@.len());
    assert(all.take(k) =~= all);
    out
}

impl Ranked for Seq<char> {
    open spec fn le(self, other: Self) -> bool {
        lex_le(self, other)
    }

    proof fn le_total(a: Self, b: Self) {
        lemma_lex_total(a, b);
    }

    proof fn le_transitive(a: Self, b: Self, c: Self) {
        lemma_lex_transitive(a, b, c);
    }
}

impl Sortable for String {
    fn no_later(&self, other: &Self) -> (r: bool) {
        at_most(self.as_str(), other.as_str())
    }
}

impl Ranked for u32 {
    open spec fn le(self, other: Self) -> bool {
        self <= other
    }

    proof fn le_total(a: Self, b: Self) {
    }

    proof fn le_transitive(a: Self, b: Self, c: Self) {
    }
}

impl Sortable for u32 {
    fn no_later(&self, other: &Self) -> (r: bool) {
        *self <= *other
    }
}

impl Ranked for (Seq<char>, u8) {
    open spec fn le(self, other: Self) -> bool {
        if self.0 == other.0 {
            self.1 <= other.1
        } else {
            lex_le(self.0, other.0)
        }
    }

    proof fn le_total(a: Self, b: Self) {
        lemma_lex_total(a.0, b.0);
    }

    proof fn le_transitive(a: Self, b: Self, c: Self) {
        if a.0 != b.0 && b.0 != c.0 {
            lemma_lex_transitive(a.0, b.0, c.0);
            if a.0 == c.0 {
                lemma_lex_antisymmetric(a.0, b.0);
            }
        }
    }
}

impl Sortable for (String, u8) {
    fn no_later(&self, other: &Self) -> (r: bool) {
        if same(self.0.as_str(), other.0.as_str()) {
            self.1 <= other.1
        } else {
            at_most(self.0.as_str(), other.0.as_str())
        }
    }
}

/// The first character in which two texts differ decides which comes first,
/// whatever follows it, and a text comes before every longer one that begins with
/// it.
pub proof fn the_first_difference_decides(
    p: Seq<char>,
    c: char,
    a: Seq<char>,
    d: char,
    b: Seq<char>,
)
    requires
        c < d,
    ensures
        lex_le(p + seq![c] + a, p + seq![d] + b),
        !lex_le(p + seq![d] + b, p + seq![c] + a),
        lex_le(p, p + a),
        a.len() > 0 ==> !lex_le(p + a, p),
    decreases p.len(),
{
    let x = p + seq![c] + a;
    let y = p + seq![d] + b;
    if p.len() > 0 {
        let q = p.skip(1);
        the_first_difference_decides(q, c, a, d, b);
        assert(x.skip(1) =~= q + seq![c] + a);
        assert(y.skip(1) =~= q + seq![d] + b);
        assert((p + a).skip(1) =~= q + a);
        assert(x[0] == p[0] && y[0] == p[0] && (p + a)[0] == p[0]);
    } else {
        assert(x[0] == c && y[0] == d);
        assert(p + a =~= a);
    }
}

/// Whether a value ranks like another.
pub open spec fn ranks_like<T: Ranked>(k: T) -> spec_fn(T) -> bool {
    |e: T| e.le(k) && k.le(e)
}

pub proof fn lemma_one_more_filtered<T>(s: Seq<T>, x: T, f: spec_fn(T) -> bool)
    ensures
        s.push(x).filter(f) == (if f(x) {
            s.filter(f).push(x)
        } else {
            s.filter(f)
        }),
{
    reveal(Seq::filter);
    assert(s.push(x).drop_last() =~= s);
}

proof fn lemma_insert_keeps_order<T: Ranked>(s: Seq<T>, x: T, k: T)
    ensures
        insert(s, x).filter(ranks_like(k)) == s.push(x).filter(ranks_like(k)),
    decreases s.len(),
{
    let f = ranks_like(k);
    if s.len() > 0 && !s.last().le(x) {
        let t = s.drop_last();
        let last = s.last();
        lemma_insert_keeps_order(t, x, k);
        if f(x) && f(last) {
            T::le_transitive(last, k, x);
        }
        assert(t.push(last) =~= s);
        lemma_one_more_filtered(insert(t, x), last, f);
        lemma_one_more_filtered(t, x, f);
        lemma_one_more_filtered(t, last, f);
        lemma_one_more_filtered(s, x, f);
    }
}

/// Those that rank alike keep the order that they had.
pub proof fn what_ranks_alike_keeps_its_order<T: Ranked>(s: Seq<T>, k: T)
    ensures
        stable_sort(s).filter(ranks_like(k)) == s.filter(ranks_like(k)),
    decreases s.len(),
{
    if s.len() > 0 {
        let t = s.drop_last();
        let u = stable_sort(t);
        what_ranks_alike_keeps_its_order(t, k);
        lemma_insert_keeps_order(u, s.last(), k);
        lemma_one_more_filtered(u, s.last(), ranks_like(k));
        lemma_one_more_filtered(t, s.last(), ranks_like(k));
        assert(t.push(s.last()) =~= s);
    }
}

} // verus!
