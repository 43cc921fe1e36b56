//! Orders on text and records, and the stable sort that arranges reports.

use vstd::prelude::*;

use crate::text::{chars_of, Text};

verus! {

/// How one value stands to another.
#[derive(Clone, Copy, Debug, PartialEq, Eq, Structural)]
pub enum Order {
    Before,
    Same,
    After,
}

impl Order {
    /// The same relation seen from the other side.
    pub open spec fn flip(self) -> Order {
        match self {
            Order::Before => Order::After,
            Order::Same => Order::Same,
            Order::After => Order::Before,
        }
    }

    /// This order, and where it does not decide the next one.
    pub open spec fn or_else(self, next: Order) -> Order {
        if self == Order::Same {
            next
        } else {
            self
        }
    }
}

/// This order, and where it does not decide the next one.
pub fn first_decided(first: Order, next: Order) -> (r: Order)
    ensures
        r == first.or_else(next),
{
    match first {
        Order::Same => next,
        _ => first,
    }
}

/// The order of two numbers.
pub open spec fn number_order(a: int, b: int) -> Order {
    if a < b {
        Order::Before
    } else if a == b {
        Order::Same
    } else {
        Order::After
    }
}

pub fn compare_numbers(a: u64, b: u64) -> (r: Order)
    ensures
        r == number_order(a as int, b as int),
{
    if a < b {
        Order::Before
    } else if a == b {
        Order::Same
    } else {
        Order::After
    }
}

/// Lexicographic order by code point; a proper prefix comes first.
pub open spec fn text_order(a: Text, b: Text) -> Order
    decreases a.len(),
{
    if a.len() == 0 {
        if b.len() == 0 {
            Order::Same
        } else {
            Order::Before
        }
    } else if b.len() == 0 {
        Order::After
    } else if a[0] == b[0] {
        text_order(a.drop_first(), b.drop_first())
    } else {
        number_order(a[0] as int, b[0] as int)
    }
}

/// Lexicographic order of two lists of texts; a proper prefix comes first.
pub open spec fn list_order(a: Seq<Text>, b: Seq<Text>) -> Order
    decreases a.len(),
{
    if a.len() == 0 {
        if b.len() == 0 {
            Order::Same
        } else {
            Order::Before
        }
    } else if b.len() == 0 {
        Order::After
    } else {
        text_order(a[0], b[0]).or_else(list_order(a.drop_first(), b.drop_first()))
    }
}

/// Texts are in the same place exactly when they are equal, and comparing them
/// the other way round gives the flipped answer.
pub proof fn lemma_text_order_flips(a: Text, b: Text)
    ensures
        text_order(b, a) == text_order(a, b).flip(),
        text_order(a, b) == Order::Same <==> a == b,
    decreases a.len(),
{
    if a.len() > 0 && b.len() > 0 {
        lemma_text_order_flips(a.drop_first(), b.drop_first());
        if a[0] == b[0] && text_order(a, b) == Order::Same {
            assert(a =~= seq![a[0]] + a.drop_first());
            assert(b =~= seq![b[0]] + b.drop_first());
        }
    }
    assert(a.len() == 0 && b.len() == 0 ==> a =~= b);
}

/// The order of texts is transitive.
pub proof fn lemma_text_order_chains(a: Text, b: Text, c: Text)
    requires
        text_order(a, b) != Order::After,
        text_order(b, c) != Order::After,
    ensures
        text_order(a, c) != Order::After,
        text_order(a, c) == Order::Same ==> text_order(a, b) == Order::Same && text_order(b, c)
            == Order::Same,
    decreases a.len(),
{
    if a.len() > 0 && b.len() > 0 && c.len() > 0 {
        if a[0] == b[0] && b[0] == c[0] {
            lemma_text_order_chains(a.drop_first(), b.drop_first(), c.drop_first());
        }
    }
}

/// Lists of texts are in the same place exactly when they are equal, and
/// comparing them the other way round gives the flipped answer.
pub proof fn lemma_list_order_flips(a: Seq<Text>, b: Seq<Text>)
    ensures
        list_order(b, a) == list_order(a, b).flip(),
        list_order(a, b) == Order::Same <==> a == b,
    decreases a.len(),
{
    if a.len() > 0 && b.len() > 0 {
        lemma_text_order_flips(a[0], b[0]);
        lemma_list_order_flips(a.drop_first(), b.drop_first());
        if list_order(a, b) == Order::Same {
            assert(a =~= seq![a[0]] + a.drop_first());
            assert(b =~= seq![b[0]] + b.drop_first());
        }
    }
    assert(a.len() == 0 && b.len() == 0 ==> a =~= b);
}

/// The order of lists of texts is transitive.
pub proof fn lemma_list_order_chains(a: Seq<Text>, b: Seq<Text>, c: Seq<Text>)
    requires
        list_order(a, b) != Order::After,
        list_order(b, c) != Order::After,
    ensures
        list_order(a, c) != Order::After,
        list_order(a, c) == Order::Same ==> list_order(a, b) == Order::Same && list_order(b, c)
            == Order::Same,
    decreases a.len(),
{
    if a.len() > 0 && b.len() > 0 && c.len() > 0 {
        lemma_text_order_chains(a[0], b[0], c[0]);
        if text_order(a[0], b[0]) == Order::Same && text_order(b[0], c[0]) == Order::Same {
            lemma_list_order_chains(a.drop_first(), b.drop_first(), c.drop_first());
        }
    }
}

pub fn compare_texts(a: &str, b: &str) -> (r: Order)
    ensures
        r == text_order(a@, b@),
{
    let x = chars_of(a);
    let y = chars_of(b);
    let mut i: usize = 0;
    assert(x@.skip(0) =~= a@);
    assert(y@.skip(0) =~= b@);
    while i < x.len() && i < y.len()
        invariant
            i <= x@.len(),
            i <= y@.len(),
            text_order(a@, b@) == text_order(x@.skip(i as int), y@.skip(i as int)),
        decreases x@.len() - i,
    {
        if x[i] < y[i] {
            return Order::Before;
        }
        if x[i] > y[i] {
            return Order::After;
        }
        assert(x@.skip(i as int).drop_first() =~= x@.skip(i + 1));
        assert(y@.skip(i as int).drop_first() =~= y@.skip(i + 1));
        i += 1;
    }
    if i < x.len() {
        Order::After
    } else if i < y.len() {
        Order::Before
    } else {
        Order::Same
    }
}

pub fn compare_lists(a: &Vec<String>, b: &Vec<String>) -> (r: Order)
    ensures
        r == list_order(a.deep_view(), b.deep_view()),
{
    let ghost x = a.deep_view();
    let ghost y = b.deep_view();
    let mut i: usize = 0;
    assert(x.skip(0) =~= x);
    assert(y.skip(0) =~= y);
    while i < a.len() && i < b.len()
        invariant
            x == a.deep_view(),
            y == b.deep_view(),
            i <= a@.len(),
            i <= b@.len(),
            list_order(x, y) == list_order(x.skip(i as int), y.skip(i as int)),
        decreases a@.len() - i,
    {
        let here = compare_texts(a[i].as_str(), b[i].as_str());
        match here {
            Order::Same => {},
            _ => {
                return here;
            },
        }
        assert(x.skip(i as int).drop_first() =~= x.skip(i + 1));
        assert(y.skip(i as int).drop_first() =~= y.skip(i + 1));
        i += 1;
    }
    if i < a.len() {
        Order::After
    } else if i < b.len() {
        Order::Before
    } else {
        Order::Same
    }
}

/// A type whose values have a place in a report.
pub trait Ranked: Sized {
    /// Where `self` stands to `other`.
    spec fn rank(&self, other: &Self) -> Order;

    proof fn rank_flips(a: &Self, b: &Self)
        ensures
            b.rank(a) == a.rank(b).flip(),
    ;

    proof fn rank_chains(a: &Self, b: &Self, c: &Self)
        requires
            a.rank(b) != Order::After,
            b.rank(c) != Order::After,
        ensures
            a.rank(c) != Order::After,
            a.rank(c) == Order::Same ==> a.rank(b) == Order::Same && b.rank(c) == Order::Same,
    ;

    fn compare(&self, other: &Self) -> (r: Order)
        ensures
            r == self.rank(other),
    ;
}

/// No value stands after a later one.
pub open spec fn is_sorted<T: Ranked>(s: Seq<T>) -> bool {
    forall|i: int, j: int|
        #![trigger s[i], s[j]]
        0 <= i <= j < s.len() ==> s[i].rank(&s[j]) != Order::After
}

/// The values of `s` in the same place as `key`, in their order.
pub open spec fn alike<T: Ranked>(s: Seq<T>, key: T) -> Seq<T>
    decreases s.len(),
{
    if s.len() == 0 {
        Seq::<T>::empty()
    } else if key.rank(&s.last()) == Order::Same {
        alike(s.drop_last(), key).push(s.last())
    } else {
        alike(s.drop_last(), key)
    }
}

/// `after` holds the values of `before`, sorted, and values in the same place
/// keep their order.
pub open spec fn is_stable_sort<T: Ranked>(before: Seq<T>, after: Seq<T>) -> bool {
    &&& is_sorted(after)
    &&& after.to_multiset() == before.to_multiset()
    &&& forall|key: T| #[trigger] alike(after, key) == alike(before, key)
}

proof fn lemma_alike_add<T: Ranked>(a: Seq<T>, b: Seq<T>, key: T)
    ensures
        alike(a + b, key) == alike(a, key) + alike(b, key),
    decreases b.len(),
{
    if b.len() == 0 {
        assert(a + b =~= a);
        assert(alike(a, key) + alike(b, key) =~= alike(a, key));
    } else {
        assert((a + b).drop_last() =~= a + b.drop_last());
        lemma_alike_add(a, b.drop_last(), key);
        assert(alike(a + b, key) =~= alike(a, key) + alike(b, key));
    }
}

proof fn lemma_alike_none<T: Ranked>(s: Seq<T>, key: T)
    requires
        forall|i: int| #![trigger s[i]] 0 <= i < s.len() ==> key.rank(&s[i]) != Order::Same,
    ensures
        alike(s, key) == Seq::<T>::empty(),
    decreases s.len(),
{
    if s.len() > 0 {
        lemma_alike_none(s.drop_last(), key);
    }
}

/// Moving one value left over values that stand after it keeps every class.
proof fn lemma_move_left<T: Ranked>(s: Seq<T>, from: int, to: int)
    requires
        0 <= to <= from < s.len(),
        forall|k: int| #![trigger s[k]] to <= k < from ==> s[from].rank(&s[k]) == Order::Before,
    ensures
        forall|key: T| #[trigger]
            alike(s.remove(from).insert(to, s[from]), key) == alike(s, key),
        s.remove(from).insert(to, s[from]).to_multiset() == s.to_multiset(),
{
    let x = s[from];
    let a = s.take(to);
    let b = s.subrange(to, from);
    let c = s.skip(from + 1);
    let one = seq![x];
    let moved = s.remove(from).insert(to, x);
    assert(s =~= a + b + one + c);
    assert(moved =~= a + one + b + c);
    assert forall|key: T| #[trigger] alike(moved, key) == alike(s, key) by {
        lemma_alike_add(a + b + one, c, key);
        lemma_alike_add(a + b, one, key);
        lemma_alike_add(a, b, key);
        lemma_alike_add(a + one + b, c, key);
        lemma_alike_add(a + one, b, key);
        lemma_alike_add(a, one, key);
        if key.rank(&x) == Order::Same {
            assert forall|k: int| #![trigger b[k]] 0 <= k < b.len() implies key.rank(&b[k])
                != Order::Same by {
                assert(b[k] == s[to + k]);
                T::rank_flips(&key, &x);
                if key.rank(&s[to + k]) == Order::Same {
                    T::rank_chains(&x, &key, &s[to + k]);
                }
                T::rank_flips(&key, &s[to + k]);
                if key.rank(&b[k]) == Order::Same {
                    T::rank_chains(&x, &s[to + k], &key);
                }
            }
            lemma_alike_none(b, key);
        } else {
            lemma_alike_none(one, key);
        }
        assert(alike(a, key) + alike(b, key) + alike(one, key) + alike(c, key) =~= alike(a, key)
            + alike(one, key) + alike(b, key) + alike(c, key));
    }
    broadcast use vstd::seq_lib::group_to_multiset_ensures;

    assert(s.remove(from).to_multiset() =~= s.to_multiset().remove(x));
    assert(s.remove(from).insert(to, x).to_multiset() =~= s.to_multiset().remove(x).insert(x));
    assert(s.to_multiset().count(x) > 0) by {
        assert(s.contains(x));
    }
    assert(moved.to_multiset() =~= s.to_multiset());
}

/// Sorts a list; values in the same place keep their order.
pub fn sort<T: Ranked>(list: &mut Vec<T>)
    ensures
        is_stable_sort(old(list)@, final(list)@),
        final(list)@.len() == old(list)@.len(),
{
    let ghost before = list@;
    let n: usize = list.len();
    let mut i: usize = 0;
    while i < n
        invariant
            i <= n,
            n == list@.len(),
            list@.len() == before.len(),
            is_sorted(list@.take(i as int)),
            list@.to_multiset() == before.to_multiset(),
            forall|key: T| #[trigger] alike(list@, key) == alike(before, key),
        decreases n - i,
    {
        let ghost s = list@;
        let mut j: usize = i;
        loop
            invariant
                i < n,
                n == list@.len(),
                j <= i,
                list@ == s,
                is_sorted(s.take(i as int)),
                forall|k: int|
                    #![trigger s[k]]
                    j <= k < i ==> s[i as int].rank(&s[k]) == Order::Before,
            ensures
                j <= i,
                list@ == s,
                forall|k: int|
                    #![trigger s[k]]
                    j <= k < i ==> s[i as int].rank(&s[k]) == Order::Before,
                j > 0 ==> s[i as int].rank(&s[j - 1]) != Order::Before,
            decreases j,
        {
            if j == 0 {
                break;
            }
            let here = list[i].compare(&list[j - 1]);
            match here {
                Order::Before => {},
                _ => {
                    break;
                },
            }
            j -= 1;
        }
        let x = list.remove(i);
        list.insert(j, x);
        proof {
            lemma_move_left(s, i as int, j as int);
            let t = list@;
            assert(t == s.remove(i as int).insert(j as int, s[i as int]));
            assert forall|p: int, q: int| #![trigger t[p], t[q]] 0 <= p <= q < i + 1 implies t[p].rank(
                &t[q],
            ) != Order::After by {
                let x = s[i as int];
                let sorted = s.take(i as int);
                T::rank_flips(&x, &x);
                if p != j && q != j {
                    let p0 = if p < j { p } else { p - 1 };
                    let q0 = if q < j { q } else { q - 1 };
                    assert(t[p] == sorted[p0]);
                    assert(t[q] == sorted[q0]);
                } else if p == j && q != j {
                    assert(t[q] == s[q - 1]);
                } else if q == j && p != j {
                    assert(t[p] == sorted[p]);
                    assert(sorted[p].rank(&sorted[j - 1]) != Order::After);
                    T::rank_flips(&x, &s[j - 1]);
                    T::rank_chains(&s[p], &s[j - 1], &x);
                }
            }
            let head = t.take(i + 1);
            assert forall|p: int, q: int|
                #![trigger head[p], head[q]]
                0 <= p <= q < head.len() implies head[p].rank(&head[q]) != Order::After by {
                assert(t[p].rank(&t[q]) != Order::After);
            }
        }
        i += 1;
    }
    assert(list@.take(i as int) =~= list@);
}

} // verus!
