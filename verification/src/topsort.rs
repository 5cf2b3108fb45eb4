//! The dependency sorter: orders a worklist of items so that every item
//! referenced by another item is emitted earlier, keeps declaration
//! order among independent items, and reports a true reference cycle as
//! a typed, fatal error instead of picking an arbitrary order.

use vstd::prelude::*;

use vstd::multiset::Multiset;

use crate::errors::CycleError;
use crate::model::{contains_string, has_name, item_name, item_refs, TypeItem};

verus! {

/// The declared names of a worklist, in declaration order.
pub open spec fn names_of(items: Seq<TypeItem>) -> Seq<Seq<char>> {
    Seq::new(items.len(), |i: int| item_name(items[i]))
}

/// Whether the `t`-th reference of `x` puts no constraint on emitting
/// `x` now: it is a self-reference, a name declared nowhere in the
/// universe, or a name already emitted.
pub open spec fn ref_ok(x: TypeItem, universe: Seq<TypeItem>, done: Seq<TypeItem>, t: int) -> bool {
    let n = item_refs(x)[t];
    n == item_name(x) || !has_name(universe, n) || has_name(done, n)
}

/// Whether every reference of `x` is satisfied once the items of `done`
/// are emitted: `x` may be emitted next.
pub open spec fn ready(x: TypeItem, universe: Seq<TypeItem>, done: Seq<TypeItem>) -> bool {
    forall|t: int| 0 <= t < item_refs(x).len() ==> #[trigger] ref_ok(x, universe, done, t)
}

/// Every item of `s` is ready once its predecessors in `s` are emitted,
/// measuring declaredness against `universe`.
pub open spec fn ordered_up_to(universe: Seq<TypeItem>, s: Seq<TypeItem>) -> bool {
    forall|j: int| 0 <= j < s.len() ==> #[trigger] ready(s[j], universe, s.subrange(0, j))
}

/// The ordering invariant: every item referenced by another item of `s`
/// is placed at or before the referencing item.
pub open spec fn dependency_ordered(s: Seq<TypeItem>) -> bool {
    ordered_up_to(s, s)
}

/// Ties keep declaration order: whenever an item is emitted later than
/// another although it was declared earlier, it was not yet ready when
/// the other was picked.  Together with [`dependency_ordered`] and the
/// permutation clause this pins the greedy, declaration-stable order.
pub open spec fn stable_order(items: Seq<TypeItem>, s: Seq<TypeItem>) -> bool {
    forall|i: int, j: int, pi: int, pj: int|
        #![trigger s[i], s[j], items[pi], items[pj]]
        0 <= i < j < s.len() && 0 <= pi < items.len() && 0 <= pj < items.len() && items[pi] == s[i]
            && items[pj] == s[j] && pj < pi ==> !ready(s[j], items, s.subrange(0, i))
}

/// Every unemitted item declared before an emitted one was not ready
/// when that one was picked.
spec fn blocked_later(items: Seq<TypeItem>, s: Seq<TypeItem>, rem: Seq<TypeItem>) -> bool {
    forall|i: int, r: int, pi: int, pr: int|
        #![trigger s[i], rem[r], items[pi], items[pr]]
        0 <= i < s.len() && 0 <= r < rem.len() && 0 <= pi < items.len() && 0 <= pr < items.len()
            && items[pi] == s[i] && items[pr] == rem[r] && pr < pi ==> !ready(
            rem[r],
            items,
            s.subrange(0, i),
        )
}

/// The unemitted items stand in declaration order.
spec fn declaration_ordered(items: Seq<TypeItem>, rem: Seq<TypeItem>) -> bool {
    forall|r: int, q: int, pr: int, pq: int|
        #![trigger rem[r], rem[q], items[pr], items[pq]]
        0 <= r < q < rem.len() && 0 <= pr < items.len() && 0 <= pq < items.len() && items[pr]
            == rem[r] && items[pq] == rem[q] ==> pr < pq
}

/// With distinct names, a value occurs at one position only.
proof fn lemma_pos_unique(items: Seq<TypeItem>, p: int, q: int)
    requires
        crate::model::distinct_names(items),
        0 <= p < items.len(),
        0 <= q < items.len(),
        items[p] == items[q],
    ensures
        p == q,
{
    if p != q {
        assert(item_name(items[p]) == item_name(items[q]));
    }
}

/// The name `n` belongs to an item of `items` that references some
/// other name of `ns`.
pub open spec fn cycle_member(items: Seq<TypeItem>, ns: Seq<Seq<char>>, n: Seq<char>) -> bool {
    exists|j: int|
        0 <= j < items.len() && item_name(#[trigger] items[j]) == n && exists|k: int|
            0 <= k < ns.len() && #[trigger] ns[k] != n && item_refs(items[j]).contains(ns[k])
}

/// A witness that no linear order exists: a non-empty set of declared
/// names, each of whose items references another name of the set, so no
/// member can be emitted first.
pub open spec fn unresolvable(items: Seq<TypeItem>, ns: Seq<Seq<char>>) -> bool {
    &&& ns.len() > 0
    &&& forall|i: int| 0 <= i < ns.len() ==> cycle_member(items, ns, #[trigger] ns[i])
}

/// A sequence's names contain `n` exactly when some item bears it.
pub proof fn lemma_names_of_contains(items: Seq<TypeItem>, n: Seq<char>)
    ensures
        names_of(items).contains(n) <==> has_name(items, n),
{
    if names_of(items).contains(n) {
        let i = choose|i: int| 0 <= i < names_of(items).len() && names_of(items)[i] == n;
        assert(item_name(items[i]) == n);
    }
    if has_name(items, n) {
        let i = choose|i: int| 0 <= i < items.len() && item_name(items[i]) == n;
        assert(names_of(items)[i] == n);
    }
}

/// Two worklists holding the same items declare the same names.
pub proof fn lemma_multiset_has_name(a: Seq<TypeItem>, b: Seq<TypeItem>, n: Seq<char>)
    requires
        a.to_multiset() == b.to_multiset(),
    ensures
        has_name(a, n) == has_name(b, n),
{
    broadcast use vstd::seq_lib::group_to_multiset_ensures;

    if has_name(a, n) {
        let i = choose|i: int| 0 <= i < a.len() && item_name(a[i]) == n;
        assert(a.contains(a[i]));
        assert(b.to_multiset().count(a[i]) > 0);
        assert(b.contains(a[i]));
        let j = choose|j: int| 0 <= j < b.len() && b[j] == a[i];
        assert(item_name(b[j]) == n);
    }
    if has_name(b, n) {
        let i = choose|i: int| 0 <= i < b.len() && item_name(b[i]) == n;
        assert(b.contains(b[i]));
        assert(a.to_multiset().count(b[i]) > 0);
        assert(a.contains(b[i]));
        let j = choose|j: int| 0 <= j < a.len() && a[j] == b[i];
        assert(item_name(a[j]) == n);
    }
}

/// Readiness does not depend on which permutation of the universe it is
/// measured against.
pub proof fn lemma_ready_same_universe(x: TypeItem, a: Seq<TypeItem>, b: Seq<TypeItem>, done: Seq<TypeItem>)
    requires
        a.to_multiset() == b.to_multiset(),
        ready(x, a, done),
    ensures
        ready(x, b, done),
{
    assert forall|t: int| 0 <= t < item_refs(x).len() implies #[trigger] ref_ok(x, b, done, t) by {
        assert(ref_ok(x, a, done, t));
        lemma_multiset_has_name(a, b, item_refs(x)[t]);
    }
}

/// Whether some item of `v` is declared under the name `n`.
fn has_item_name(v: &Vec<TypeItem>, n: &String) -> (r: bool)
    ensures
        r == has_name(v@, n@),
{
    let mut i: usize = 0;
    while i < v.len()
        invariant
            i <= v.len(),
            forall|j: int| 0 <= j < i ==> item_name(v@[j]) != n@,
        decreases v.len() - i,
    {
        if *v[i].name() == *n {
            return true;
        }
        i = i + 1;
    }
    false
}

/// The declared name of every item of `items`, in declaration order.
fn collect_names(items: &Vec<TypeItem>) -> (r: Vec<String>)
    ensures
        r.deep_view() == names_of(items@),
{
    let mut out: Vec<String> = Vec::new();
    let mut i: usize = 0;
    assert(out.deep_view() =~= names_of(items@.subrange(0, 0)));
    while i < items.len()
        invariant
            i <= items.len(),
            out@.len() == i,
            out.deep_view() == names_of(items@.subrange(0, i as int)),
        decreases items.len() - i,
    {
        let nm = items[i].name().clone();
        assert(nm@ == item_name(items@[i as int]));
        let ghost vold = out@;
        let ghost dvold = out.deep_view();
        out.push(nm);
        assert forall|j: int| 0 <= j < out@.len() implies out.deep_view()[j] == names_of(
            items@.subrange(0, i as int + 1),
        )[j] by {
            assert(out@ == vold.push(nm));
            assert(vold.len() == i as int);
            assert(names_of(items@.subrange(0, i as int + 1)).len() == i as int + 1);
            if j < i as int {
                assert(vold.push(nm)[j] == vold[j]);
                assert(out@[j] == vold[j]);
                assert(out.deep_view()[j] == vold[j]@);
                assert(dvold[j] == names_of(items@.subrange(0, i as int))[j]);
                assert(items@.subrange(0, i as int + 1)[j] == items@.subrange(0, i as int)[j]);
            } else {
                assert(vold.push(nm)[j] == nm);
                assert(out@[j] == nm);
            }
        }
        assert(out.deep_view() =~= names_of(items@.subrange(0, i as int + 1)));
        i = i + 1;
    }
    assert(items@.subrange(0, items@.len() as int) =~= items@);
    out
}

/// Whether `x` may be emitted once the items of `done` are emitted;
/// `universe_names` is the snapshot of every declared name.
fn is_ready(
    x: &TypeItem,
    universe_names: &Vec<String>,
    done: &Vec<TypeItem>,
    Ghost(universe): Ghost<Seq<TypeItem>>,
) -> (r: bool)
    requires
        universe_names.deep_view() == names_of(universe),
    ensures
        r == ready(*x, universe, done@),
{
    let refs = x.ref_names();
    let name = x.name();
    let mut i: usize = 0;
    while i < refs.len()
        invariant
            i <= refs.len(),
            refs.deep_view() == item_refs(*x),
            name@ == item_name(*x),
            universe_names.deep_view() == names_of(universe),
            forall|t: int| 0 <= t < i ==> #[trigger] ref_ok(*x, universe, done@, t),
        decreases refs.len() - i,
    {
        let n = &refs[i];
        assert(n@ == item_refs(*x)[i as int]);
        if !(*n == *name) {
            let declared = contains_string(universe_names, n);
            proof {
                lemma_names_of_contains(universe, n@);
            }
            if declared {
                if !has_item_name(done, n) {
                    assert(!ref_ok(*x, universe, done@, i as int));
                    assert(!ready(*x, universe, done@));
                    return false;
                }
            }
        }
        assert(ref_ok(*x, universe, done@, i as int));
        i = i + 1;
    }
    true
}

/// The position of the first item of `remaining` that is ready, if any.
fn find_ready(
    remaining: &Vec<TypeItem>,
    universe_names: &Vec<String>,
    done: &Vec<TypeItem>,
    Ghost(universe): Ghost<Seq<TypeItem>>,
) -> (r: Option<usize>)
    requires
        universe_names.deep_view() == names_of(universe),
    ensures
        match r {
            Some(k) => k < remaining@.len() && ready(remaining@[k as int], universe, done@)
                && forall|j: int|
                0 <= j < k ==> !ready(#[trigger] remaining@[j], universe, done@),
            None => forall|j: int|
                0 <= j < remaining@.len() ==> !ready(#[trigger] remaining@[j], universe, done@),
        },
{
    let mut k: usize = 0;
    while k < remaining.len()
        invariant
            k <= remaining.len(),
            universe_names.deep_view() == names_of(universe),
            forall|j: int| 0 <= j < k ==> !ready(#[trigger] remaining@[j], universe, done@),
        decreases remaining.len() - k,
    {
        if is_ready(&remaining[k], universe_names, done, Ghost(universe)) {
            return Some(k);
        }
        k = k + 1;
    }
    None
}

/// Moving one occurrence of `x` from `r` to `s` leaves their union
/// unchanged.
proof fn lemma_transfer_count(
    s: Multiset<TypeItem>,
    r: Multiset<TypeItem>,
    total: Multiset<TypeItem>,
    x: TypeItem,
)
    requires
        s.add(r) == total,
        r.count(x) > 0,
    ensures
        s.insert(x).add(r.remove(x)) == total,
{
    assert forall|e: TypeItem| #[trigger] s.insert(x).add(r.remove(x)).count(e) == total.count(e) by {
        assert(s.add(r).count(e) == s.count(e) + r.count(e));
        assert(s.insert(x).add(r.remove(x)).count(e)
            == s.insert(x).count(e) + r.remove(x).count(e));
        assert(s.insert(x).count(e) == s.count(e) + Multiset::singleton(x).count(e));
        assert(r.remove(x).count(e) == r.count(e) - Multiset::singleton(x).count(e)
            || (Multiset::singleton(x).count(e) > r.count(e) && r.remove(x).count(e) == 0));
        if e == x {
            assert(Multiset::singleton(x).count(e) == 1);
        } else {
            assert(Multiset::singleton(x).count(e) == 0);
        }
    }
    assert(s.insert(x).add(r.remove(x)) =~= total);
}

/// Order `items` so that every item referenced by another item comes
/// first; ties among independent items keep declaration order.  A true
/// mutual cycle among named types is returned as [`CycleError`]
/// carrying the identities that block each other.
#[verifier::rlimit(30)]
pub fn topsort(items: Vec<TypeItem>) -> (r: Result<Vec<TypeItem>, CycleError>)
    ensures
        match r {
            Ok(sorted) => {
                &&& sorted@.to_multiset() == items@.to_multiset()
                &&& dependency_ordered(sorted@)
                &&& crate::model::distinct_names(items@) ==> stable_order(items@, sorted@)
            },
            Err(e) => unresolvable(items@, e.names.deep_view()),
        },
{
    broadcast use vstd::seq_lib::group_to_multiset_ensures;

    let ghost orig = items@;
    let universe_names = collect_names(&items);
    let mut remaining = items;
    let mut sorted: Vec<TypeItem> = Vec::new();
    proof {
        assert forall|e: TypeItem|
            #[trigger] sorted@.to_multiset().add(remaining@.to_multiset()).count(e) == orig.to_multiset().count(e) by {
            assert(sorted@.to_multiset().add(remaining@.to_multiset()).count(e)
                == sorted@.to_multiset().count(e) + remaining@.to_multiset().count(e));
            assert(sorted@.to_multiset().count(e) <= sorted@.to_multiset().len());
        }
        assert(sorted@.to_multiset().add(remaining@.to_multiset()) =~= orig.to_multiset());
        if crate::model::distinct_names(orig) {
            assert forall|r: int, q: int, pr: int, pq: int|
                #![trigger remaining@[r], remaining@[q], orig[pr], orig[pq]]
                0 <= r < q < remaining@.len() && 0 <= pr < orig.len() && 0 <= pq < orig.len()
                    && orig[pr] == remaining@[r] && orig[pq] == remaining@[q] implies pr < pq by {
                assert(remaining@[r] == orig[r]);
                assert(remaining@[q] == orig[q]);
                lemma_pos_unique(orig, pr, r);
                lemma_pos_unique(orig, pq, q);
            }
        }
    }
    while remaining.len() > 0
        invariant
            orig == items@,
            universe_names.deep_view() == names_of(orig),
            sorted@.to_multiset().add(remaining@.to_multiset()) == orig.to_multiset(),
            ordered_up_to(orig, sorted@),
            crate::model::distinct_names(orig) ==> stable_order(orig, sorted@),
            crate::model::distinct_names(orig) ==> blocked_later(orig, sorted@, remaining@),
            crate::model::distinct_names(orig) ==> declaration_ordered(orig, remaining@),
        decreases remaining.len(),
    {
        match find_ready(&remaining, &universe_names, &sorted, Ghost(orig)) {
            Some(k) => {
                let ghost old_sorted = sorted@;
                let ghost old_remaining = remaining@;
                let ghost git = remaining@[k as int];
                let it = remaining.remove(k);
                sorted.push(it);
                proof {
                    broadcast use vstd::seq_lib::group_to_multiset_ensures;

                    if crate::model::distinct_names(orig) {
                        let kk = k as int;
                        let i0 = old_sorted.len() as int;
                        old_remaining.remove_ensures(kk);
                        assert(sorted@[i0] == git);
                        assert(sorted@.subrange(0, i0) =~= old_sorted);
                        // the unemitted items keep declaration order
                        assert forall|r: int, q: int, pr: int, pq: int|
                            #![trigger remaining@[r], remaining@[q], orig[pr], orig[pq]]
                            0 <= r < q < remaining@.len() && 0 <= pr < orig.len() && 0 <= pq
                                < orig.len() && orig[pr] == remaining@[r] && orig[pq]
                                == remaining@[q] implies pr < pq by {
                            let r0: int = if r < kk { r } else { r + 1 };
                            let q0: int = if q < kk { q } else { q + 1 };
                            assert(old_remaining[r0] == remaining@[r]);
                            assert(old_remaining[q0] == remaining@[q]);
                        }
                        // items declared before an emitted one were blocked
                        assert forall|i: int, r: int, pi: int, pr: int|
                            #![trigger sorted@[i], remaining@[r], orig[pi], orig[pr]]
                            0 <= i < sorted@.len() && 0 <= r < remaining@.len() && 0 <= pi
                                < orig.len() && 0 <= pr < orig.len() && orig[pi] == sorted@[i]
                                && orig[pr] == remaining@[r] && pr < pi implies !ready(
                            remaining@[r],
                            orig,
                            sorted@.subrange(0, i),
                        ) by {
                            let r0: int = if r < kk { r } else { r + 1 };
                            assert(old_remaining[r0] == remaining@[r]);
                            if i < i0 {
                                assert(sorted@[i] == old_sorted[i]);
                                assert(sorted@.subrange(0, i) =~= old_sorted.subrange(0, i));
                                assert(!ready(old_remaining[r0], orig, old_sorted.subrange(0, i)));
                            } else {
                                assert(sorted@[i] == git);
                                assert(old_remaining[kk] == git);
                                if r0 > kk {
                                    // a later unemitted item is declared later: contradiction
                                    assert(pi < pr);
                                    assert(false);
                                } else {
                                    assert(!ready(old_remaining[r0], orig, old_sorted));
                                }
                            }
                        }
                        // earlier-declared items emitted later were blocked at each pick
                        assert forall|i: int, j: int, pi: int, pj: int|
                            #![trigger sorted@[i], sorted@[j], orig[pi], orig[pj]]
                            0 <= i < j < sorted@.len() && 0 <= pi < orig.len() && 0 <= pj
                                < orig.len() && orig[pi] == sorted@[i] && orig[pj] == sorted@[j]
                                && pj < pi implies !ready(
                            sorted@[j],
                            orig,
                            sorted@.subrange(0, i),
                        ) by {
                            assert(sorted@[i] == old_sorted[i]);
                            assert(sorted@.subrange(0, i) =~= old_sorted.subrange(0, i));
                            if j < i0 {
                                assert(sorted@[j] == old_sorted[j]);
                                assert(!ready(old_sorted[j], orig, old_sorted.subrange(0, i)));
                            } else {
                                assert(sorted@[j] == git);
                                assert(old_remaining[kk] == git);
                                assert(!ready(old_remaining[kk], orig, old_sorted.subrange(0, i)));
                            }
                        }
                        assert(stable_order(orig, sorted@));
                        assert(blocked_later(orig, sorted@, remaining@));
                        assert(declaration_ordered(orig, remaining@));
                    }
                    assert(old_remaining.contains(git));
                    assert(old_remaining.to_multiset().count(git) > 0);
                    assert(sorted@ == old_sorted.push(git));
                    assert(old_sorted.push(git).to_multiset()
                        =~= old_sorted.to_multiset().insert(git));
                    assert(remaining@ == old_remaining.remove(k as int));
                    assert(old_remaining.remove(k as int).to_multiset()
                        =~= old_remaining.to_multiset().remove(git));
                    lemma_transfer_count(
                        old_sorted.to_multiset(),
                        old_remaining.to_multiset(),
                        orig.to_multiset(),
                        git,
                    );
                    assert forall|j: int| 0 <= j < sorted@.len() implies #[trigger] ready(
                        sorted@[j],
                        orig,
                        sorted@.subrange(0, j),
                    ) by {
                        if j < old_sorted.len() {
                            assert(sorted@.subrange(0, j) =~= old_sorted.subrange(0, j));
                            assert(sorted@[j] == old_sorted[j]);
                            assert(ready(old_sorted[j], orig, old_sorted.subrange(0, j)));
                        } else {
                            assert(sorted@[j] == git);
                            assert(sorted@.subrange(0, j) =~= old_sorted);
                        }
                    }
                }
            }
            None => {
                let names = collect_names(&remaining);
                proof {
                    broadcast use vstd::seq_lib::group_to_multiset_ensures;

                    let ns = names_of(remaining@);
                    assert forall|i: int| 0 <= i < ns.len() implies cycle_member(
                        orig,
                        ns,
                        #[trigger] ns[i],
                    ) by {
                        let x = remaining@[i];
                        assert(remaining@.contains(x));
                        assert(remaining@.to_multiset().count(x) > 0);
                        assert(sorted@.to_multiset().add(remaining@.to_multiset()).count(x)
                            == sorted@.to_multiset().count(x) + remaining@.to_multiset().count(x));
                        assert(orig.to_multiset().count(x) > 0);
                        assert(orig.contains(x));
                        let j = choose|j: int| 0 <= j < orig.len() && orig[j] == x;
                        assert(!ready(x, orig, sorted@));
                        let t = choose|t: int|
                            0 <= t < item_refs(x).len() && !ref_ok(x, orig, sorted@, t);
                        let m = item_refs(x)[t];
                        assert(m != item_name(x));
                        assert(has_name(orig, m));
                        assert(!has_name(sorted@, m));
                        let oj = choose|oj: int| 0 <= oj < orig.len() && item_name(orig[oj]) == m;
                        let y = orig[oj];
                        assert(orig.contains(y));
                        assert(orig.to_multiset().count(y) > 0);
                        assert(sorted@.to_multiset().add(remaining@.to_multiset()).count(y)
                            == sorted@.to_multiset().count(y) + remaining@.to_multiset().count(y));
                        if sorted@.to_multiset().count(y) > 0 {
                            assert(sorted@.contains(y));
                            let sj = choose|sj: int| 0 <= sj < sorted@.len() && sorted@[sj] == y;
                            assert(item_name(sorted@[sj]) == m);
                            assert(false);
                        }
                        assert(remaining@.to_multiset().count(y) > 0);
                        assert(remaining@.contains(y));
                        let rk = choose|rk: int| 0 <= rk < remaining@.len() && remaining@[rk] == y;
                        assert(ns[rk] == m);
                        assert(item_refs(x).contains(m));
                        assert(item_name(orig[j]) == ns[i]);
                        assert(item_refs(orig[j]).contains(ns[rk]));
                        assert(cycle_member(orig, ns, ns[i]));
                    }
                }
                return Err(CycleError { names });
            }
        }
    }
    proof {
        assert(remaining@ =~= Seq::<TypeItem>::empty());
        assert(remaining@.to_multiset().len() == 0);
        assert forall|e: TypeItem| #[trigger] orig.to_multiset().count(e)
            == sorted@.to_multiset().count(e) by {
            assert(sorted@.to_multiset().add(remaining@.to_multiset()).count(e)
                == sorted@.to_multiset().count(e) + remaining@.to_multiset().count(e));
            assert(remaining@.to_multiset().count(e) <= remaining@.to_multiset().len());
        }
        assert(sorted@.to_multiset() =~= orig.to_multiset());
        assert forall|j: int| 0 <= j < sorted@.len() implies #[trigger] ready(
            sorted@[j],
            sorted@,
            sorted@.subrange(0, j),
        ) by {
            assert(ready(sorted@[j], orig, sorted@.subrange(0, j)));
            lemma_ready_same_universe(sorted@[j], orig, sorted@, sorted@.subrange(0, j));
        }
    }
    Ok(sorted)
}

/// A permutation of a worklist with pairwise distinct names has
/// pairwise distinct names.
pub proof fn lemma_distinct_names_permutation(a: Seq<TypeItem>, b: Seq<TypeItem>)
    requires
        a.to_multiset() == b.to_multiset(),
        crate::model::distinct_names(a),
    ensures
        crate::model::distinct_names(b),
{
    broadcast use vstd::seq_lib::group_to_multiset_ensures;

    assert forall|p: int, q: int| 0 <= p < q < b.len() implies item_name(b[p]) != item_name(
        b[q],
    ) by {
        if item_name(b[p]) == item_name(b[q]) {
            if b[p] == b[q] {
                assert(b.remove(p).to_multiset() == b.to_multiset().remove(b[p]));
                b.remove_ensures(p);
                assert(b.remove(p)[q - 1] == b[q]);
                assert(b.remove(p).contains(b[q]));
                assert(b.remove(p).to_multiset().count(b[q]) > 0);
                assert(b.to_multiset().count(b[p]) >= 2);
                assert(a.to_multiset().count(b[p]) >= 2);
                assert(a.contains(b[p]));
                let ia = choose|ia: int| 0 <= ia < a.len() && a[ia] == b[p];
                assert(a.remove(ia).to_multiset() == a.to_multiset().remove(a[ia]));
                assert(a.remove(ia).to_multiset().count(b[p]) > 0);
                assert(a.remove(ia).contains(b[p]));
                let ja = choose|ja: int|
                    0 <= ja < a.remove(ia).len() && a.remove(ia)[ja] == b[p];
                a.remove_ensures(ia);
                let ja2: int = if ja < ia {
                    ja
                } else {
                    ja + 1
                };
                assert(a[ja2] == b[p]);
                assert(item_name(a[ia]) == item_name(a[ja2]));
                assert(false);
            } else {
                assert(b.contains(b[p]));
                assert(b.contains(b[q]));
                assert(a.to_multiset().count(b[p]) > 0);
                assert(a.to_multiset().count(b[q]) > 0);
                assert(a.contains(b[p]));
                assert(a.contains(b[q]));
                let ia = choose|ia: int| 0 <= ia < a.len() && a[ia] == b[p];
                let ja = choose|ja: int| 0 <= ja < a.len() && a[ja] == b[q];
                assert(ia != ja);
                assert(item_name(a[ia]) == item_name(a[ja]));
                assert(false);
            }
        }
    }
}

/// Ordering invariant, stated over pairs: whenever the item at position
/// `jx` of a dependency-ordered worklist with distinct names references
/// the name of the distinct item at position `iy`, the referenced item
/// stands strictly earlier.
pub proof fn lemma_dependency_ordered_pairs(s: Seq<TypeItem>, iy: int, jx: int)
    requires
        dependency_ordered(s),
        crate::model::distinct_names(s),
        0 <= iy < s.len(),
        0 <= jx < s.len(),
        item_refs(s[jx]).contains(item_name(s[iy])),
        item_name(s[iy]) != item_name(s[jx]),
    ensures
        iy < jx,
{
    let n = item_name(s[iy]);
    let t = choose|t: int| 0 <= t < item_refs(s[jx]).len() && item_refs(s[jx])[t] == n;
    assert(ready(s[jx], s, s.subrange(0, jx)));
    assert(ref_ok(s[jx], s, s.subrange(0, jx), t));
    assert(has_name(s, n));
    assert(has_name(s.subrange(0, jx), n));
    let p = choose|p: int| 0 <= p < jx && item_name(s.subrange(0, jx)[p]) == n;
    assert(s.subrange(0, jx)[p] == s[p]);
    if p != iy {
        assert(item_name(s[p]) == item_name(s[iy]));
        assert(false);
    }
}

/// Two distinct named items that reference each other directly can
/// stand in no dependency-respecting order: such a snapshot can only be
/// reported as a cycle, never silently linearized.
pub proof fn lemma_mutual_cycle_unsortable(s: Seq<TypeItem>, i: int, j: int)
    requires
        crate::model::distinct_names(s),
        0 <= i < s.len(),
        0 <= j < s.len(),
        item_refs(s[i]).contains(item_name(s[j])),
        item_refs(s[j]).contains(item_name(s[i])),
        item_name(s[i]) != item_name(s[j]),
    ensures
        !dependency_ordered(s),
{
    if dependency_ordered(s) {
        lemma_dependency_ordered_pairs(s, j, i);
        lemma_dependency_ordered_pairs(s, i, j);
    }
}

} // verus!
