//! The order of names, and sorting by it.
use crate::text;
use vstd::multiset::Multiset;
use vstd::prelude::*;
use vstd::seq_lib::{group_to_multiset_ensures, lemma_multiset_commutative};

verus! {

/// Whether `a` stands before `b`: by the first characters that differ, a
/// beginning before what it begins.
pub open spec fn less(a: Seq<char>, b: Seq<char>) -> bool
    decreases a.len(),
{
    if b.len() == 0 {
        false
    } else if a.len() == 0 {
        true
    } else if a[0] == b[0] {
        less(a.drop_first(), b.drop_first())
    } else {
        (a[0] as int) < (b[0] as int)
    }
}

/// A name with a rank.
pub type Ranked = (usize, Seq<char>);

/// Whether `a` stands before `b`: by rank, and then by name.
pub open spec fn before(a: Ranked, b: Ranked) -> bool {
    a.0 < b.0 || (a.0 == b.0 && less(a.1, b.1))
}

/// Whether no later one stands before an earlier one.
pub open spec fn sorted(list: Seq<Ranked>) -> bool {
    forall|i: int, j: int| 0 <= i < j < list.len() ==> !before(#[trigger] list[j], #[trigger] list[i])
}

proof fn lemma_less_irreflexive(a: Seq<char>)
    ensures
        !less(a, a),
    decreases a.len(),
{
    if a.len() > 0 {
        lemma_less_irreflexive(a.drop_first());
    }
}

proof fn lemma_less_transitive(a: Seq<char>, b: Seq<char>, c: Seq<char>)
    requires
        less(a, b),
        less(b, c),
    ensures
        less(a, c),
    decreases a.len(),
{
    if a.len() > 0 && a[0] == b[0] && b[0] == c[0] {
        lemma_less_transitive(a.drop_first(), b.drop_first(), c.drop_first());
    }
}

/// Of two names, one stands before the other, unless they are the same.
pub proof fn lemma_less_total(a: Seq<char>, b: Seq<char>)
    ensures
        less(a, b) || less(b, a) || a == b,
        !(less(a, b) && less(b, a)),
    decreases a.len(),
{
    if a.len() == 0 || b.len() == 0 {
        if a.len() == b.len() {
            assert(a =~= b);
        }
    } else if a[0] == b[0] {
        lemma_less_total(a.drop_first(), b.drop_first());
        if a.drop_first() == b.drop_first() {
            assert(a =~= seq![a[0]] + a.drop_first());
            assert(b =~= seq![b[0]] + b.drop_first());
        }
    }
}

/// Not standing before carries over.
proof fn lemma_not_before(a: Ranked, b: Ranked, c: Ranked)
    requires
        !before(b, a),
        !before(c, b),
    ensures
        !before(c, a),
{
    lemma_less_total(a.1, b.1);
    lemma_less_total(b.1, c.1);
    lemma_less_irreflexive(a.1);
    if before(c, a) {
        if a.0 == b.0 && b.0 == c.0 {
            if a.1 != b.1 && b.1 != c.1 {
                lemma_less_transitive(a.1, b.1, c.1);
                lemma_less_transitive(a.1, c.1, a.1);
            }
        }
    }
}

/// The code point of `c`.
fn code_point(c: char) -> (r: u32)
    ensures
        r == c as int,
{
    c as u32
}

/// Whether `a` stands before `b`.
pub fn is_less(a: &[char], b: &[char]) -> (r: bool)
    ensures
        r == less(a@, b@),
{
    let mut i: usize = 0;
    assert(a@.skip(0) =~= a@);
    assert(b@.skip(0) =~= b@);
    while i < a.len() && i < b.len() && a[i] == b[i]
        invariant
            i <= a@.len(),
            i <= b@.len(),
            less(a@, b@) == less(a@.skip(i as int), b@.skip(i as int)),
        decreases a@.len() - i,
    {
        proof {
            assert(a@.skip(i as int).drop_first() =~= a@.skip(i + 1));
            assert(b@.skip(i as int).drop_first() =~= b@.skip(i + 1));
        }
        i += 1;
    }
    if i >= b.len() {
        false
    } else if i >= a.len() {
        true
    } else {
        code_point(a[i]) < code_point(b[i])
    }
}

/// What each item says.
pub open spec fn ranked(items: Seq<(usize, Vec<char>)>) -> Seq<Ranked> {
    items.map_values(|p: (usize, Vec<char>)| (p.0, p.1@))
}

fn is_before(a: &(usize, Vec<char>), b: &(usize, Vec<char>)) -> (r: bool)
    ensures
        r == before((a.0, a.1@), (b.0, b.1@)),
{
    a.0 < b.0 || (a.0 == b.0 && is_less(&a.1, &b.1))
}

/// The same items the other way round.
fn reversed(items: Vec<(usize, Vec<char>)>) -> (r: Vec<(usize, Vec<char>)>)
    ensures
        ranked(r@) == ranked(items@).reverse(),
{
    let ghost all = ranked(items@);
    let mut items = items;
    let mut out: Vec<(usize, Vec<char>)> = Vec::new();
    while items.len() > 0
        invariant
            items@.len() + out@.len() == all.len(),
            ranked(items@) == all.take(items@.len() as int),
            forall|k: int| 0 <= k < out@.len() ==> #[trigger] ranked(out@)[k] == all[all.len() - 1 - k],
        decreases items@.len(),
    {
        let ghost rest = ranked(items@);
        let item = items.pop().unwrap();
        assert(ranked(items@) =~= rest.drop_last());
        let ghost done = ranked(out@);
        let ghost last = (item.0, item.1@);
        assert(last == rest.last());
        out.push(item);
        assert(ranked(out@) =~= done.push(last));
    }
    assert(ranked(out@) =~= all.reverse());
    out
}

/// Whether each of `a` may stand behind each of `b` in an order from last to
/// first.
spec fn below(a: Seq<Ranked>, b: Seq<Ranked>) -> bool {
    forall|i: int, j: int| 0 <= i < a.len() && 0 <= j < b.len() ==> !before(#[trigger] b[j], #[trigger] a[i])
}

proof fn lemma_pushed(out: Seq<Ranked>, x: Ranked)
    ensures
        out.push(x).to_multiset() == out.to_multiset().insert(x),
{
    broadcast use group_to_multiset_ensures;

}

proof fn lemma_dropped(a: Seq<Ranked>)
    requires
        a.len() > 0,
    ensures
        a.drop_last().to_multiset().insert(a.last()) == a.to_multiset(),
{
    lemma_pushed(a.drop_last(), a.last());
    assert(a.drop_last().push(a.last()) =~= a);
}

/// Merges sorted items.
fn merged(a: Vec<(usize, Vec<char>)>, b: Vec<(usize, Vec<char>)>) -> (r: Vec<(usize, Vec<char>)>)
    requires
        sorted(ranked(a@)),
        sorted(ranked(b@)),
    ensures
        sorted(ranked(r@)),
        ranked(r@).to_multiset() == ranked(a@).to_multiset().add(ranked(b@).to_multiset()),
{
    let ghost all = ranked(a@).to_multiset().add(ranked(b@).to_multiset());
    let mut a = a;
    let mut b = b;
    let mut out: Vec<(usize, Vec<char>)> = Vec::new();
    proof {
        assert(ranked(out@) =~= seq![]);
        broadcast use group_to_multiset_ensures;

        assert(ranked(out@).to_multiset() =~= Multiset::empty());
        assert(ranked(a@).to_multiset().add(ranked(b@).to_multiset()).add(ranked(out@).to_multiset()) =~= all);
    }
    while a.len() > 0 || b.len() > 0
        invariant
            sorted(ranked(a@)),
            sorted(ranked(b@)),
            sorted(ranked(out@).reverse()),
            below(ranked(a@), ranked(out@)),
            below(ranked(b@), ranked(out@)),
            ranked(a@).to_multiset().add(ranked(b@).to_multiset()).add(ranked(out@).to_multiset()) == all,
        decreases a@.len() + b@.len(),
    {
        let ghost ra = ranked(a@);
        let ghost rb = ranked(b@);
        let ghost ro = ranked(out@);
        let from_a = if a.len() == 0 {
            false
        } else if b.len() == 0 {
            true
        } else {
            !is_before(&a[a.len() - 1], &b[b.len() - 1])
        };
        if from_a {
            let item = a.pop().unwrap();
            let ghost x = (item.0, item.1@);
            out.push(item);
            proof {
                assert(x == ra.last());
                assert(ranked(a@) =~= ra.drop_last());
                assert(ranked(out@) =~= ro.push(x));
                lemma_dropped(ra);
                lemma_pushed(ro, x);
                lemma_step(ra, rb, ro);
                assert(ranked(a@).to_multiset().add(rb.to_multiset()).add(ranked(out@).to_multiset()) =~= all);
            }
        } else {
            let item = b.pop().unwrap();
            let ghost x = (item.0, item.1@);
            out.push(item);
            proof {
                lemma_less_total(ra.last().1, rb.last().1);
                assert(x == rb.last());
                assert(ranked(b@) =~= rb.drop_last());
                assert(ranked(out@) =~= ro.push(x));
                lemma_dropped(rb);
                lemma_pushed(ro, x);
                lemma_step(rb, ra, ro);
                assert(ra.to_multiset().add(ranked(b@).to_multiset()).add(ranked(out@).to_multiset()) =~= all);
            }
        }
    }
    proof {
        assert(ranked(a@) =~= seq![]);
        assert(ranked(b@) =~= seq![]);
        broadcast use group_to_multiset_ensures;

        assert(ranked(a@).to_multiset() =~= Multiset::empty());
        assert(ranked(b@).to_multiset() =~= Multiset::empty());
        assert(ranked(out@).to_multiset() =~= all);
        ranked(out@).lemma_reverse_to_multiset();
    }
    reversed(out)
}

/// The last of `a`, which no last of `b` stands behind, goes behind `out`.
proof fn lemma_step(a: Seq<Ranked>, b: Seq<Ranked>, out: Seq<Ranked>)
    requires
        a.len() > 0,
        sorted(a),
        sorted(b),
        sorted(out.reverse()),
        below(a, out),
        below(b, out),
        b.len() > 0 ==> !before(a.last(), b.last()),
    ensures
        sorted(a.drop_last()),
        sorted(out.push(a.last()).reverse()),
        below(a.drop_last(), out.push(a.last())),
        below(b, out.push(a.last())),
{
    let x = a.last();
    let next = out.push(x);
    let back = next.reverse();
    assert forall|i: int, j: int| 0 <= i < j < back.len() implies !before(
        #[trigger] back[j],
        #[trigger] back[i],
    ) by {
        if i == 0 {
            assert(back[0] == x);
            assert(back[j] == out[out.len() - j]);
            assert(a[a.len() - 1] == x);
        } else {
            assert(back[i] == out.reverse()[i - 1]);
            assert(back[j] == out.reverse()[j - 1]);
        }
    }
    assert forall|i: int, j: int| 0 <= i < a.len() - 1 && 0 <= j < next.len() implies !before(
        #[trigger] next[j],
        #[trigger] a.drop_last()[i],
    ) by {
        assert(a.drop_last()[i] == a[i]);
        if j == out.len() {
            assert(next[j] == a[a.len() - 1]);
        } else {
            assert(next[j] == out[j]);
        }
    }
    assert forall|i: int, j: int| 0 <= i < b.len() && 0 <= j < next.len() implies !before(
        #[trigger] next[j],
        #[trigger] b[i],
    ) by {
        if j == out.len() {
            assert(next[j] == x);
            if i < b.len() - 1 {
                lemma_not_before(b[i], b.last(), x);
            }
        } else {
            assert(next[j] == out[j]);
        }
    }
}

/// Whether `list` is `items`, sorted.
pub open spec fn sorts(list: Seq<Ranked>, items: Seq<Ranked>) -> bool {
    sorted(list) && list.to_multiset() == items.to_multiset()
}

/// The items, sorted.
pub open spec fn sorted_list(items: Seq<Ranked>) -> Seq<Ranked> {
    choose|list: Seq<Ranked>| sorts(list, items)
}

/// Sorting is pinned down: two sorted lists of the same items are the same.
pub proof fn law_sorting_is_unique(a: Seq<Ranked>, b: Seq<Ranked>, items: Seq<Ranked>)
    requires
        sorts(a, items),
        sorts(b, items),
    ensures
        a == b,
    decreases a.len(),
{
    broadcast use group_to_multiset_ensures;

    assert(a.to_multiset().len() == a.len());
    assert(b.to_multiset().len() == b.len());
    if a.len() > 0 {
        let x = a.last();
        let y = b.last();
        assert(a.to_multiset().count(y) > 0) by {
            assert(b.contains(b[b.len() - 1]));
        }
        assert(b.to_multiset().count(x) > 0) by {
            assert(a.contains(a[a.len() - 1]));
        }
        let i = choose|i: int| 0 <= i < a.len() && a[i] == y;
        let j = choose|j: int| 0 <= j < b.len() && b[j] == x;
        lemma_less_total(x.1, y.1);
        lemma_less_irreflexive(x.1);
        if i < a.len() - 1 {
            assert(!before(a[a.len() - 1], a[i]));
        }
        if j < b.len() - 1 {
            assert(!before(b[b.len() - 1], b[j]));
        }
        assert(x == y);
        let p = a.drop_last();
        let q = b.drop_last();
        assert(p =~= a.remove(a.len() - 1));
        assert(q =~= b.remove(b.len() - 1));
        assert(p.to_multiset() == a.to_multiset().remove(x));
        assert(q.to_multiset() == b.to_multiset().remove(y));
        assert forall|k: int, l: int| 0 <= k < l < p.len() implies !before(#[trigger] p[l], #[trigger] p[k]) by {
            assert(p[l] == a[l] && p[k] == a[k]);
        }
        assert forall|k: int, l: int| 0 <= k < l < q.len() implies !before(#[trigger] q[l], #[trigger] q[k]) by {
            assert(q[l] == b[l] && q[k] == b[k]);
        }
        law_sorting_is_unique(p, q, p);
        assert(a =~= p.push(x));
        assert(b =~= q.push(x));
    } else {
        assert(a =~= b);
    }
}

/// Sorts items: the same ones, in order.
pub fn sort(items: Vec<(usize, Vec<char>)>) -> (r: Vec<(usize, Vec<char>)>)
    ensures
        sorts(ranked(r@), ranked(items@)),
        ranked(r@) == sorted_list(ranked(items@)),
{
    let r = merge_sort(items);
    proof {
        assert(sorts(ranked(r@), ranked(items@)));
        law_sorting_is_unique(ranked(r@), sorted_list(ranked(items@)), ranked(items@));
    }
    r
}

fn merge_sort(items: Vec<(usize, Vec<char>)>) -> (r: Vec<(usize, Vec<char>)>)
    ensures
        sorted(ranked(r@)),
        ranked(r@).to_multiset() == ranked(items@).to_multiset(),
    decreases items@.len(),
{
    if items.len() <= 1 {
        return items;
    }
    let ghost all = ranked(items@);
    let mut low = items;
    let half: usize = low.len() / 2;
    let high = low.split_off(half);
    proof {
        assert(ranked(low@) =~= all.take(half as int));
        assert(ranked(high@) =~= all.skip(half as int));
        assert(all.take(half as int) + all.skip(half as int) =~= all);
        lemma_multiset_commutative(ranked(low@), ranked(high@));
    }
    merged(merge_sort(low), merge_sort(high))
}

/// Whether `list` is `names`, sorted.
pub open spec fn ordered(list: Seq<Seq<char>>, names: Seq<Seq<char>>) -> bool {
    &&& list.to_multiset() == names.to_multiset()
    &&& forall|i: int, j: int| 0 <= i < j < list.len() ==> !less(#[trigger] list[j], #[trigger] list[i])
}

/// The names, sorted.
pub open spec fn ordered_list(names: Seq<Seq<char>>) -> Seq<Seq<char>> {
    choose|list: Seq<Seq<char>>| ordered(list, names)
}

/// Names without a rank of their own.
spec fn unranked(names: Seq<Seq<char>>) -> Seq<Ranked> {
    names.map_values(|n: Seq<char>| (0usize, n))
}

proof fn lemma_unranked(names: Seq<Seq<char>>, name: Seq<char>)
    ensures
        unranked(names).to_multiset().count((0, name)) == names.to_multiset().count(name),
    decreases names.len(),
{
    broadcast use group_to_multiset_ensures;

    if names.len() == 0 {
        assert(unranked(names) =~= seq![]);
        assert(names =~= seq![]);
    } else {
        let t = names.drop_last();
        lemma_unranked(t, name);
        assert(names =~= t.push(names.last()));
        assert(unranked(names) =~= unranked(t).push((0, names.last())));
    }
}

/// Sorts names.
pub fn sort_texts(names: Vec<String>) -> (r: Vec<String>)
    ensures
        ordered(text::texts(r@), text::texts(names@)),
        text::texts(r@) == ordered_list(text::texts(names@)),
{
    let ghost all = text::texts(names@);
    let mut items: Vec<(usize, Vec<char>)> = Vec::new();
    let mut i: usize = 0;
    while i < names.len()
        invariant
            i <= names@.len(),
            all == text::texts(names@),
            items@.len() == i,
            forall|k: int| 0 <= k < i ==> #[trigger] ranked(items@)[k] == (0usize, all[k]),
        decreases names@.len() - i,
    {
        let ghost done = ranked(items@);
        let item = (0usize, text::chars(&names[i]));
        items.push(item);
        assert(ranked(items@) =~= done.push((0, item.1@)));
        i += 1;
    }
    assert(ranked(items@) =~= unranked(all));
    let items = sort(items);
    let ghost sorted_items = ranked(items@);
    let mut out: Vec<String> = Vec::new();
    let mut k: usize = 0;
    while k < items.len()
        invariant
            k <= items@.len(),
            out@.len() == k,
            sorted_items == ranked(items@),
            forall|j: int| 0 <= j < k ==> (#[trigger] out@[j])@ == sorted_items[j].1,
        decreases items@.len() - k,
    {
        out.push(text::string(&items[k].1));
        k += 1;
    }
    proof {
        let list = text::texts(out@);
        broadcast use group_to_multiset_ensures;

        assert forall|j: int| 0 <= j < sorted_items.len() implies #[trigger] sorted_items[j] == (0usize, list[j]) by {
            assert(sorted_items.contains(sorted_items[j]));
            assert(unranked(all).to_multiset().count(sorted_items[j]) > 0);
            assert(unranked(all).contains(sorted_items[j]));
        }
        assert(sorted_items =~= unranked(list));
        assert forall|name: Seq<char>| list.to_multiset().count(name) == all.to_multiset().count(name) by {
            lemma_unranked(list, name);
            lemma_unranked(all, name);
        }
        assert(list.to_multiset() =~= all.to_multiset());
        assert forall|i: int, j: int| 0 <= i < j < list.len() implies !less(#[trigger] list[j], #[trigger] list[i]) by {
            assert(!before(sorted_items[j], sorted_items[i]));
        }
        assert(ordered(list, all));
        law_order_is_unique(list, ordered_list(all), all);
    }
    out
}

/// Whether `list` is in order, nothing twice.
pub open spec fn strictly_sorted(list: Seq<Seq<char>>) -> bool {
    forall|i: int, j: int| 0 <= i < j < list.len() ==> less(#[trigger] list[i], #[trigger] list[j])
}

/// Sorts names, each once.
pub fn sort_distinct(names: Vec<String>) -> (r: Vec<String>)
    ensures
        strictly_sorted(text::texts(r@)),
        forall|name: Seq<char>|
            #[trigger] text::texts(r@).contains(name) <==> text::texts(names@).contains(name),
{
    let ghost given = text::texts(names@);
    let all = sort_texts(names);
    let ghost list = text::texts(all@);
    let mut out: Vec<String> = Vec::new();
    assert(text::texts(out@) =~= seq![]);
    for name in it: all
        invariant
            it.seq() == all@,
            list == text::texts(all@),
            ordered(list, given),
            strictly_sorted(text::texts(out@)),
            it.index() == 0 <==> out@.len() == 0,
            out@.len() > 0 ==> text::texts(out@).last() == list[it.index() - 1],
            forall|n: Seq<char>|
                #[trigger] text::texts(out@).contains(n) <==> list.take(it.index()).contains(n),
    {
        let ghost k = it.index();
        let ghost done = text::texts(out@);
        let ghost now = name@;
        assert(list[k] == now);
        let fresh = if out.len() == 0 {
            true
        } else {
            !text::same(&out[out.len() - 1], &name)
        };
        proof {
            assert(list.take(k + 1) =~= list.take(k).push(now));
        }
        if fresh {
            out.push(name);
            proof {
                let next = text::texts(out@);
                assert(next =~= done.push(now));
                assert forall|i: int, j: int| 0 <= i < j < next.len() implies less(
                    #[trigger] next[i],
                    #[trigger] next[j],
                ) by {
                    if j == done.len() {
                        assert(done.contains(done[i]));
                        let p = choose|p: int| 0 <= p < k && list.take(k)[p] == done[i];
                        assert(list[p] == next[i]);
                        assert(!less(list[k], list[p]));
                        lemma_less_total(next[i], now);
                        if i < done.len() - 1 {
                            assert(less(done[i], done.last()));
                        }
                        if next[i] == now {
                            assert(!less(list[k], list[k - 1]));
                            lemma_less_total(list[k - 1], now);
                            lemma_less_irreflexive(now);
                        }
                    } else {
                        assert(next[i] == done[i] && next[j] == done[j]);
                    }
                }
                assert forall|n: Seq<char>| #[trigger] next.contains(n) <==> list.take(k + 1).contains(n) by {
                    lemma_contains_push(done, now, n);
                    lemma_contains_push(list.take(k), now, n);
                }
            }
        } else {
            proof {
                assert(done.last() == now);
                assert(done.contains(now));
                assert forall|n: Seq<char>| #[trigger] done.contains(n) <==> list.take(k + 1).contains(n) by {
                    lemma_contains_push(list.take(k), now, n);
                }
            }
        }
    }
    proof {
        broadcast use group_to_multiset_ensures;

        assert(list.take(list.len() as int) =~= list);
        assert forall|name: Seq<char>| #[trigger] text::texts(out@).contains(name) <==> given.contains(name) by {
            assert(list.contains(name) <==> list.to_multiset().count(name) > 0);
            assert(given.contains(name) <==> given.to_multiset().count(name) > 0);
        }
    }
    out
}

pub proof fn lemma_contains_push(s: Seq<Seq<char>>, x: Seq<char>, n: Seq<char>)
    ensures
        s.push(x).contains(n) <==> s.contains(n) || n == x,
{
    if s.contains(n) {
        let i = choose|i: int| 0 <= i < s.len() && s[i] == n;
        assert(s.push(x)[i] == n);
    }
    if n == x {
        assert(s.push(x)[s.len() as int] == n);
    }
    if s.push(x).contains(n) {
        let i = choose|i: int| 0 <= i < s.push(x).len() && s.push(x)[i] == n;
        if i < s.len() {
            assert(s[i] == n);
        }
    }
}

/// The names, sorted, are pinned down: two such lists are the same.
pub proof fn law_order_is_unique(a: Seq<Seq<char>>, b: Seq<Seq<char>>, names: Seq<Seq<char>>)
    requires
        ordered(a, names),
        ordered(b, names),
    ensures
        a == b,
    decreases a.len(),
{
    broadcast use group_to_multiset_ensures;

    assert(a.to_multiset().len() == a.len());
    assert(b.to_multiset().len() == b.len());
    if a.len() > 0 {
        assert(a.to_multiset().count(b.last()) > 0) by {
            assert(b.contains(b[b.len() - 1]));
        }
        assert(b.to_multiset().count(a.last()) > 0) by {
            assert(a.contains(a[a.len() - 1]));
        }
        let i = choose|i: int| 0 <= i < a.len() && a[i] == b.last();
        let j = choose|j: int| 0 <= j < b.len() && b[j] == a.last();
        lemma_less_total(a.last(), b.last());
        lemma_less_irreflexive(a.last());
        assert(a.last() == b.last());
        let x = a.drop_last();
        let y = b.drop_last();
        assert(x =~= a.remove(a.len() - 1));
        assert(y =~= b.remove(b.len() - 1));
        assert(x.to_multiset() == a.to_multiset().remove(a.last()));
        assert(y.to_multiset() == b.to_multiset().remove(b.last()));
        assert forall|p: int, q: int| 0 <= p < q < x.len() implies !less(#[trigger] x[q], #[trigger] x[p]) by {
            assert(x[q] == a[q] && x[p] == a[p]);
        }
        assert forall|p: int, q: int| 0 <= p < q < y.len() implies !less(#[trigger] y[q], #[trigger] y[p]) by {
            assert(y[q] == b[q] && y[p] == b[p]);
        }
        law_order_is_unique(x, y, x);
        assert(a =~= x.push(a.last()));
        assert(b =~= y.push(b.last()));
    } else {
        assert(a =~= b);
    }
}

/// Names in order, each once, are pinned down by which they are.
pub proof fn law_distinct_order_is_unique(a: Seq<Seq<char>>, b: Seq<Seq<char>>)
    requires
        strictly_sorted(a),
        strictly_sorted(b),
        forall|n: Seq<char>| #[trigger] a.contains(n) <==> b.contains(n),
    ensures
        a == b,
    decreases a.len(),
{
    if a.len() == 0 {
        if b.len() > 0 {
            assert(b.contains(b[0]));
            assert(a.contains(b[0]));
        }
        assert(a =~= b);
    } else {
        let x = a.last();
        assert(a.contains(a[a.len() - 1]));
        assert(b.contains(x));
        let y = b.last();
        assert(b.contains(b[b.len() - 1]));
        assert(a.contains(y));
        let i = choose|i: int| 0 <= i < a.len() && a[i] == y;
        let j = choose|j: int| 0 <= j < b.len() && b[j] == x;
        lemma_less_total(x, y);
        assert(x == y);
        let p = a.drop_last();
        let q = b.drop_last();
        assert(a =~= p.push(x));
        assert(b =~= q.push(x));
        assert forall|n: Seq<char>| #[trigger] p.contains(n) <==> q.contains(n) by {
            lemma_contains_push(p, x, n);
            lemma_contains_push(q, x, n);
            lemma_less_irreflexive(x);
            if p.contains(x) {
                let k = choose|k: int| 0 <= k < p.len() && p[k] == x;
                assert(less(a[k], a[a.len() - 1]));
            }
            if q.contains(x) {
                let k = choose|k: int| 0 <= k < q.len() && q[k] == x;
                assert(less(b[k], b[b.len() - 1]));
            }
            assert(a.contains(n) <==> b.contains(n));
        }
        assert forall|k: int, l: int| 0 <= k < l < p.len() implies less(#[trigger] p[k], #[trigger] p[l]) by {
            assert(p[k] == a[k] && p[l] == a[l]);
        }
        assert forall|k: int, l: int| 0 <= k < l < q.len() implies less(#[trigger] q[k], #[trigger] q[l]) by {
            assert(q[k] == b[k] && q[l] == b[l]);
        }
        law_distinct_order_is_unique(p, q);
    }
}

/// The order of names is that of their characters: what begins another stands
/// before it, and else the first characters that differ decide.
pub proof fn law_names_stand_in_order(start: Seq<char>, a: char, b: char, x: Seq<char>, y: Seq<char>)
    requires
        a < b,
    ensures
        less(start, start.push(a)),
        less(start + seq![a] + x, start + seq![b] + y),
        !less(start + seq![b] + y, start + seq![a] + x),
        !less(start, start),
    decreases start.len(),
{
    let p = start + seq![a] + x;
    let q = start + seq![b] + y;
    lemma_less_irreflexive(start);
    if start.len() > 0 {
        let rest = start.drop_first();
        law_names_stand_in_order(rest, a, b, x, y);
        assert(p.drop_first() =~= rest + seq![a] + x);
        assert(q.drop_first() =~= rest + seq![b] + y);
        assert(start.push(a).drop_first() =~= rest.push(a));
    }
}

/// A better rank stands first, whatever the names; of one rank the names decide.
pub proof fn law_ranks_decide_first(a: Ranked, b: Ranked)
    ensures
        a.0 < b.0 ==> before(a, b) && !before(b, a),
        a.0 == b.0 ==> (before(a, b) <==> less(a.1, b.1)),
{
}

} // verus!
