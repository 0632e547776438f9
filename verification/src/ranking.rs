//! Stable sorting by rank.

use vstd::prelude::*;
use vstd::seq_lib::*;

verus! {

/// Whether `lt` is strict, and being of equal rank under it carries over.
pub open spec fn ranks<A>(lt: spec_fn(A, A) -> bool) -> bool {
    &&& forall|a: A| !#[trigger] lt(a, a)
    &&& forall|a: A, b: A, c: A| #[trigger] lt(a, b) && #[trigger] lt(b, c) ==> lt(a, c)
    &&& forall|a: A, b: A, c: A| !#[trigger] lt(a, b) && !#[trigger] lt(b, c) ==> !lt(a, c)
}

/// `s` with `x` placed behind every element that `x` does not rank before.
pub open spec fn inserted<A>(s: Seq<A>, x: A, lt: spec_fn(A, A) -> bool) -> Seq<A>
    decreases s.len(),
{
    if s.len() > 0 && lt(x, s.last()) {
        inserted(s.drop_last(), x, lt).push(s.last())
    } else {
        s.push(x)
    }
}

/// The elements of `s` by rank; among equal ranks the order of `s` is kept.
pub open spec fn ranked<A>(s: Seq<A>, lt: spec_fn(A, A) -> bool) -> Seq<A>
    decreases s.len(),
{
    if s.len() == 0 {
        s
    } else {
        inserted(ranked(s.drop_last(), lt), s.last(), lt)
    }
}

/// Whether no element ranks before one that stands in front of it.
pub open spec fn in_rank_order<A>(s: Seq<A>, lt: spec_fn(A, A) -> bool) -> bool {
    forall|i: int, j: int| 0 <= i < j < s.len() ==> !lt(#[trigger] s[j], #[trigger] s[i])
}

/// The values equal in rank to `a`.
pub open spec fn of_rank<A>(a: A, lt: spec_fn(A, A) -> bool) -> spec_fn(A) -> bool {
    |b: A| !lt(a, b) && !lt(b, a)
}

/// Values that can be ranked. Two values of which neither ranks before the
/// other are equal in rank, and may still differ.
pub trait Ranked: Sized {
    /// Whether `self` ranks strictly before `other`.
    spec fn ranks_before(self, other: Self) -> bool;

    /// Ranks are strict, and being of equal rank carries over.
    proof fn ranks_are_ordered()
        ensures
            ranks(|a: Self, b: Self| a.ranks_before(b)),
    ;

    /// Whether `self` ranks strictly before `other`.
    fn before(&self, other: &Self) -> (r: bool)
        ensures
            r == self.ranks_before(*other),
    ;
}

impl Ranked for u64 {
    /// The smaller number ranks first.
    open spec fn ranks_before(self, other: Self) -> bool {
        self < other
    }

    proof fn ranks_are_ordered() {
    }

    fn before(&self, other: &Self) -> (r: bool) {
        *self < *other
    }
}

/// The order in which values of `T` rank.
pub open spec fn rank_order<T: Ranked>() -> spec_fn(T, T) -> bool {
    |a: T, b: T| a.ranks_before(b)
}

/// The elements of `s` and `t`, taken from the end by rank.
spec fn merged<A>(s: Seq<A>, t: Seq<A>, lt: spec_fn(A, A) -> bool) -> Seq<A>
    decreases s.len() + t.len(),
{
    if s.len() == 0 {
        t
    } else if t.len() == 0 {
        s
    } else if lt(t.last(), s.last()) {
        merged(s.drop_last(), t, lt).push(s.last())
    } else {
        merged(s, t.drop_last(), lt).push(t.last())
    }
}

proof fn lemma_merged_inserted<A>(s: Seq<A>, t: Seq<A>, x: A, lt: spec_fn(A, A) -> bool)
    requires
        ranks(lt),
    ensures
        merged(s, inserted(t, x, lt), lt) == inserted(merged(s, t, lt), x, lt),
    decreases s.len() + t.len(),
{
    if s.len() == 0 {
    } else if t.len() == 0 {
        assert(inserted(t, x, lt) =~= seq![x]);
        assert(seq![x].drop_last() =~= t);
        assert(merged(s, t, lt) == s);
        assert(s.drop_last().push(s.last()) =~= s);
        if lt(x, s.last()) {
            lemma_merged_inserted(s.drop_last(), t, x, lt);
            assert(merged(s.drop_last(), t, lt) =~= s.drop_last());
        }
    } else {
        let sl = s.last();
        let tl = t.last();
        assert(t.push(x).drop_last() =~= t);
        if lt(tl, sl) {
            let m = merged(s.drop_last(), t, lt);
            assert(m.push(sl).drop_last() =~= m);
            lemma_merged_inserted(s.drop_last(), t, x, lt);
            if lt(x, tl) {
                assert(inserted(t, x, lt).last() == tl);
                assert(lt(x, sl));
            }
        } else {
            let m = merged(s, t.drop_last(), lt);
            assert(m.push(tl).drop_last() =~= m);
            if lt(x, tl) {
                lemma_merged_inserted(s, t.drop_last(), x, lt);
                let u = inserted(t.drop_last(), x, lt);
                assert(u.push(tl).drop_last() =~= u);
            } else {
                assert(!lt(x, sl));
            }
        }
    }
}

proof fn lemma_ranked_concat<A>(a: Seq<A>, b: Seq<A>, lt: spec_fn(A, A) -> bool)
    requires
        ranks(lt),
    ensures
        ranked(a + b, lt) == merged(ranked(a, lt), ranked(b, lt), lt),
    decreases b.len(),
{
    if b.len() == 0 {
        assert(a + b =~= a);
        assert(ranked(b, lt) == b);
    } else {
        assert((a + b).drop_last() =~= a + b.drop_last());
        lemma_ranked_concat(a, b.drop_last(), lt);
        lemma_merged_inserted(ranked(a, lt), ranked(b.drop_last(), lt), b.last(), lt);
    }
}

/// The elements of `v` from the last to the first.
pub fn reversed<T>(v: Vec<T>) -> (r: Vec<T>)
    ensures
        r@ == v@.reverse(),
{
    let ghost all = v@;
    let mut front = v;
    let mut back: Vec<T> = Vec::new();
    proof {
        assert(front@ + back@.reverse() =~= all);
    }
    while front.len() > 0
        invariant
            front@ + back@.reverse() == all,
        decreases front@.len(),
    {
        let ghost front0 = front@;
        let ghost back0 = back@;
        if let Some(x) = front.pop() {
            back.push(x);
        }
        proof {
            assert(front@ + back@.reverse() =~= front0 + back0.reverse());
        }
    }
    proof {
        assert(back@.reverse() =~= all);
        assert(all.reverse() =~= back@);
    }
    back
}

/// Merges two rows, the elements of `t` behind those of `s` of equal rank.
fn merge<T: Ranked>(s: Vec<T>, t: Vec<T>) -> (r: Vec<T>)
    ensures
        r@ == merged(s@, t@, rank_order::<T>()),
{
    let ghost lt = rank_order::<T>();
    let mut a = s;
    let mut b = t;
    let mut back: Vec<T> = Vec::new();
    proof {
        assert(merged(a@, b@, lt) + back@.reverse() =~= merged(s@, t@, lt));
    }
    while a.len() > 0 && b.len() > 0
        invariant
            lt == rank_order::<T>(),
            merged(a@, b@, lt) + back@.reverse() == merged(s@, t@, lt),
        decreases a.len() + b.len(),
    {
        let ghost a0 = a@;
        let ghost b0 = b@;
        let ghost back0 = back@;
        let from_first = b[b.len() - 1].before(&a[a.len() - 1]);
        let x = if from_first {
            a.pop()
        } else {
            b.pop()
        };
        if let Some(v) = x {
            back.push(v);
        }
        proof {
            assert(merged(a0, b0, lt) == merged(a@, b@, lt).push(back@.last()));
            assert(merged(a@, b@, lt) + back@.reverse() =~= merged(a@, b@, lt).push(back@.last())
                + back0.reverse());
        }
    }
    let mut out = if a.len() > 0 {
        a
    } else {
        b
    };
    let mut rest = reversed(back);
    out.append(&mut rest);
    out
}

/// Sorts by rank and keeps the order of elements of equal rank.
pub fn sort_by_rank<T: Ranked>(v: Vec<T>) -> (r: Vec<T>)
    ensures
        r@ == ranked(v@, rank_order::<T>()),
    decreases v.len(),
{
    let ghost lt = rank_order::<T>();
    if v.len() < 2 {
        proof {
            if v@.len() == 1 {
                assert(v@.drop_last() =~= Seq::<T>::empty());
                assert(ranked(v@.drop_last(), lt) =~= Seq::<T>::empty());
                assert(ranked(v@, lt) =~= v@);
            }
        }
        return v;
    }
    let mut first = v;
    let mid: usize = first.len() / 2;
    let second = first.split_off(mid);
    proof {
        assert(first@ + second@ =~= v@);
        T::ranks_are_ordered();
        lemma_ranked_concat(first@, second@, lt);
    }
    let a = sort_by_rank(first);
    let b = sort_by_rank(second);
    merge(a, b)
}

proof fn lemma_inserted_multiset<A>(s: Seq<A>, x: A, lt: spec_fn(A, A) -> bool)
    ensures
        inserted(s, x, lt).to_multiset() == s.to_multiset().insert(x),
        inserted(s, x, lt).len() == s.len() + 1,
    decreases s.len(),
{
    broadcast use group_to_multiset_ensures;

    if s.len() > 0 && lt(x, s.last()) {
        lemma_inserted_multiset(s.drop_last(), x, lt);
        assert(s.drop_last().push(s.last()) =~= s);
        assert(s.to_multiset() =~= s.drop_last().to_multiset().insert(s.last()));
        assert(inserted(s, x, lt).to_multiset() =~= s.to_multiset().insert(x));
    }
}

/// Sorting keeps every element, as often as it occurs.
pub proof fn ranked_is_a_permutation<A>(s: Seq<A>, lt: spec_fn(A, A) -> bool)
    ensures
        ranked(s, lt).to_multiset() == s.to_multiset(),
        ranked(s, lt).len() == s.len(),
    decreases s.len(),
{
    broadcast use group_to_multiset_ensures;

    if s.len() > 0 {
        ranked_is_a_permutation(s.drop_last(), lt);
        lemma_inserted_multiset(ranked(s.drop_last(), lt), s.last(), lt);
        assert(s.drop_last().push(s.last()) =~= s);
        assert(s.to_multiset() =~= s.drop_last().to_multiset().insert(s.last()));
    }
}

proof fn lemma_inserted_images_multiset<A, B>(
    s: Seq<A>,
    x: A,
    lt: spec_fn(A, A) -> bool,
    f: spec_fn(A) -> B,
)
    ensures
        inserted(s, x, lt).map_values(f).to_multiset() == s.map_values(f).to_multiset().insert(f(x)),
    decreases s.len(),
{
    broadcast use group_to_multiset_ensures;

    if s.len() > 0 && lt(x, s.last()) {
        let front = s.drop_last();
        let sl = s.last();
        lemma_inserted_images_multiset(front, x, lt, f);
        assert(s.map_values(f) =~= front.map_values(f).push(f(sl)));
        assert(inserted(s, x, lt).map_values(f) =~= inserted(front, x, lt).map_values(f).push(
            f(sl),
        ));
        assert(inserted(s, x, lt).map_values(f).to_multiset() =~= s.map_values(
            f,
        ).to_multiset().insert(f(x)));
    } else {
        assert(s.push(x).map_values(f) =~= s.map_values(f).push(f(x)));
    }
}

/// Sorting keeps the image of every element, as often as it occurs.
pub proof fn ranked_keeps_images<A, B>(s: Seq<A>, lt: spec_fn(A, A) -> bool, f: spec_fn(A) -> B)
    ensures
        ranked(s, lt).map_values(f).to_multiset() == s.map_values(f).to_multiset(),
    decreases s.len(),
{
    broadcast use group_to_multiset_ensures;

    if s.len() > 0 {
        let front = s.drop_last();
        ranked_keeps_images(front, lt, f);
        lemma_inserted_images_multiset(ranked(front, lt), s.last(), lt, f);
        assert(s.map_values(f) =~= front.map_values(f).push(f(s.last())));
    }
}

/// Every element of the sorted row is an element of the row.
pub proof fn ranked_elements<A>(s: Seq<A>, lt: spec_fn(A, A) -> bool, x: A)
    ensures
        ranked(s, lt).contains(x) == s.contains(x),
{
    broadcast use group_to_multiset_ensures;

    ranked_is_a_permutation(s, lt);
    assert(ranked(s, lt).to_multiset().count(x) == s.to_multiset().count(x));
}

proof fn lemma_inserted_elements<A>(s: Seq<A>, x: A, lt: spec_fn(A, A) -> bool, i: int)
    requires
        0 <= i < inserted(s, x, lt).len(),
    ensures
        inserted(s, x, lt)[i] == x || s.contains(inserted(s, x, lt)[i]),
    decreases s.len(),
{
    if s.len() > 0 && lt(x, s.last()) {
        let u = inserted(s.drop_last(), x, lt);
        if i < u.len() {
            lemma_inserted_elements(s.drop_last(), x, lt, i);
            if s.drop_last().contains(u[i]) {
                let k = choose|k: int| 0 <= k < s.drop_last().len() && s.drop_last()[k] == u[i];
                assert(s[k] == u[i]);
            }
        } else {
            assert(s[s.len() - 1] == s.last());
        }
    } else if i < s.len() {
        assert(s[i] == s.push(x)[i]);
    }
}

proof fn lemma_inserted_in_order<A>(s: Seq<A>, x: A, lt: spec_fn(A, A) -> bool)
    requires
        ranks(lt),
        in_rank_order(s, lt),
    ensures
        in_rank_order(inserted(s, x, lt), lt),
    decreases s.len(),
{
    let sl = s.last();
    if s.len() > 0 && lt(x, sl) {
        let front = s.drop_last();
        assert forall|i: int, j: int| 0 <= i < j < front.len() implies !lt(
            #[trigger] front[j],
            #[trigger] front[i],
        ) by {
            assert(!lt(s[j], s[i]));
        }
        lemma_inserted_in_order(front, x, lt);
        let u = inserted(front, x, lt);
        let r = u.push(sl);
        assert forall|i: int, j: int| 0 <= i < j < r.len() implies !lt(
            #[trigger] r[j],
            #[trigger] r[i],
        ) by {
            if j < u.len() {
                assert(!lt(u[j], u[i]));
            } else {
                lemma_inserted_elements(front, x, lt, i);
                if u[i] == x {
                    if lt(sl, x) {
                        assert(lt(x, x));
                    }
                } else {
                    let k = choose|k: int| 0 <= k < front.len() && front[k] == u[i];
                    assert(!lt(s[s.len() - 1], s[k]));
                }
            }
        }
    } else {
        let r = s.push(x);
        assert forall|i: int, j: int| 0 <= i < j < r.len() implies !lt(
            #[trigger] r[j],
            #[trigger] r[i],
        ) by {
            if j < s.len() {
                assert(!lt(s[j], s[i]));
            } else if i < s.len() - 1 {
                assert(!lt(s[s.len() - 1], s[i]));
                assert(!lt(x, sl));
            }
        }
    }
}

/// After sorting no element ranks before one in front of it.
pub proof fn ranked_is_in_rank_order<A>(s: Seq<A>, lt: spec_fn(A, A) -> bool)
    requires
        ranks(lt),
    ensures
        in_rank_order(ranked(s, lt), lt),
    decreases s.len(),
{
    if s.len() > 0 {
        ranked_is_in_rank_order(s.drop_last(), lt);
        lemma_inserted_in_order(ranked(s.drop_last(), lt), s.last(), lt);
    }
}

/// Filtering treats the last element by itself.
pub proof fn lemma_filter_push<A>(s: Seq<A>, x: A, p: spec_fn(A) -> bool)
    ensures
        s.push(x).filter(p) == if p(x) {
            s.filter(p).push(x)
        } else {
            s.filter(p)
        },
{
    reveal(Seq::filter);
    assert(s.push(x).drop_last() =~= s);
}

/// What a filter keeps fulfils its condition and was there before.
pub proof fn lemma_filter_elements<A>(s: Seq<A>, p: spec_fn(A) -> bool, i: int)
    requires
        0 <= i < s.filter(p).len(),
    ensures
        p(s.filter(p)[i]),
        s.contains(s.filter(p)[i]),
    decreases s.len(),
{
    if s.len() == 0 {
        reveal(Seq::filter);
    } else {
        let front = s.drop_last();
        let x = s.last();
        assert(front.push(x) =~= s);
        lemma_filter_push(front, x, p);
        if i < front.filter(p).len() {
            lemma_filter_elements(front, p, i);
            let y = front.filter(p)[i];
            let k = choose|k: int| 0 <= k < front.len() && front[k] == y;
            assert(s[k] == y);
        } else {
            assert(s[s.len() - 1] == x);
        }
    }
}

proof fn lemma_inserted_filter<A>(s: Seq<A>, x: A, y: A, lt: spec_fn(A, A) -> bool)
    requires
        ranks(lt),
    ensures
        inserted(s, x, lt).filter(of_rank(y, lt)) == s.push(x).filter(of_rank(y, lt)),
    decreases s.len(),
{
    let p = of_rank(y, lt);
    let sl = s.last();
    if s.len() > 0 && lt(x, sl) {
        let front = s.drop_last();
        lemma_inserted_filter(front, x, y, lt);
        assert(!(p(x) && p(sl))) by {
            if p(x) && p(sl) {
                assert(!lt(x, y) && !lt(y, sl));
                assert(!lt(x, sl));
            }
        }
        assert(front.push(sl) =~= s);
        lemma_filter_push(front, sl, p);
        lemma_filter_push(front, x, p);
        lemma_filter_push(inserted(front, x, lt), sl, p);
        lemma_filter_push(s, x, p);
    }
}

/// Elements of one rank keep the order that they had before sorting.
pub proof fn ranked_is_stable<A>(s: Seq<A>, lt: spec_fn(A, A) -> bool, y: A)
    requires
        ranks(lt),
    ensures
        ranked(s, lt).filter(of_rank(y, lt)) == s.filter(of_rank(y, lt)),
    decreases s.len(),
{
    if s.len() > 0 {
        let front = s.drop_last();
        ranked_is_stable(front, lt, y);
        lemma_inserted_filter(ranked(front, lt), s.last(), y, lt);
        lemma_filter_push(ranked(front, lt), s.last(), of_rank(y, lt));
        assert(front.push(s.last()) =~= s);
        lemma_filter_push(front, s.last(), of_rank(y, lt));
    }
}

proof fn lemma_inserted_map<A, B>(
    s: Seq<A>,
    x: A,
    lt: spec_fn(A, A) -> bool,
    f: spec_fn(A) -> B,
    lt_image: spec_fn(B, B) -> bool,
)
    requires
        forall|a: A, b: A|
            s.push(x).contains(a) && s.push(x).contains(b) ==> #[trigger] lt(a, b) == lt_image(
                f(a),
                f(b),
            ),
    ensures
        inserted(s, x, lt).map_values(f) == inserted(s.map_values(f), f(x), lt_image),
    decreases s.len(),
{
    let image = s.map_values(f);
    assert(s.push(x).contains(x)) by {
        assert(s.push(x)[s.len() as int] == x);
    }
    if s.len() > 0 {
        let front = s.drop_last();
        assert(s.push(x).contains(s.last())) by {
            assert(s.push(x)[s.len() - 1] == s.last());
        }
        assert(image.last() == f(s.last()));
        assert(image.drop_last() =~= front.map_values(f));
        if lt(x, s.last()) {
            assert forall|a: A| front.push(x).contains(a) implies s.push(x).contains(a) by {
                let k = choose|k: int|
                    0 <= k < front.push(x).len() && front.push(x)[k] == a;
                if k < front.len() {
                    assert(s.push(x)[k] == a);
                }
            }
            lemma_inserted_map(front, x, lt, f, lt_image);
            assert(inserted(s, x, lt).map_values(f) =~= inserted(front, x, lt).map_values(f).push(
                f(s.last()),
            ));
        } else {
            assert(s.push(x).map_values(f) =~= image.push(f(x)));
        }
    } else {
        assert(s.push(x).map_values(f) =~= image.push(f(x)));
    }
}

/// Sorting images sorts as sorting the values does, where an image ranks as
/// its value.
pub proof fn ranked_of_images<A, B>(
    s: Seq<A>,
    lt: spec_fn(A, A) -> bool,
    f: spec_fn(A) -> B,
    lt_image: spec_fn(B, B) -> bool,
)
    requires
        forall|a: A, b: A|
            s.contains(a) && s.contains(b) ==> #[trigger] lt(a, b) == lt_image(f(a), f(b)),
    ensures
        ranked(s, lt).map_values(f) == ranked(s.map_values(f), lt_image),
    decreases s.len(),
{
    if s.len() > 0 {
        let front = s.drop_last();
        let x = s.last();
        assert forall|a: A| front.contains(a) implies s.contains(a) by {
            let k = choose|k: int| 0 <= k < front.len() && front[k] == a;
            assert(s[k] == a);
        }
        ranked_of_images(front, lt, f, lt_image);
        let r = ranked(front, lt);
        assert forall|a: A| r.push(x).contains(a) implies s.contains(a) by {
            let k = choose|k: int| 0 <= k < r.push(x).len() && r.push(x)[k] == a;
            if k < r.len() {
                assert(r.contains(a)) by {
                    assert(r[k] == a);
                }
                ranked_elements(front, lt, a);
            } else {
                assert(s[s.len() - 1] == a);
            }
        }
        lemma_inserted_map(r, x, lt, f, lt_image);
        assert(s.map_values(f).drop_last() =~= front.map_values(f));
    } else {
        assert(s.map_values(f) =~= Seq::<B>::empty());
        assert(ranked(s.map_values(f), lt_image) =~= Seq::<B>::empty());
    }
}

} // verus!
