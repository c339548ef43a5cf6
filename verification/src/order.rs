//! The order in which paths are listed: component by component, so that a
//! directory's own entries come before those of a sibling whose name merely
//! begins like the directory's.

use crate::text::texts;
use vstd::prelude::*;

verus! {

/// The weight of a character in a path: the separator weighs less than any
/// other character, and all others weigh as their code points do.
pub open spec fn rank(c: char) -> int {
    if c == '/' {
        0
    } else {
        c as u32 + 1
    }
}

/// Whether path `a` comes strictly before path `b`: at the first place where
/// they differ `a` has ended, or has the character of less weight. This
/// compares the paths component by component, a component being what stands
/// between two separators.
pub open spec fn path_before(a: Seq<char>, b: Seq<char>) -> bool
    decreases a.len(),
{
    if b.len() == 0 {
        false
    } else if a.len() == 0 {
        true
    } else if a[0] == b[0] {
        path_before(a.drop_first(), b.drop_first())
    } else {
        rank(a[0]) < rank(b[0])
    }
}

/// No path comes before itself.
pub proof fn lemma_before_irreflexive(a: Seq<char>)
    ensures
        !path_before(a, a),
    decreases a.len(),
{
    if a.len() > 0 {
        lemma_before_irreflexive(a.drop_first());
    }
}

/// Of two different paths one comes before the other.
pub proof fn lemma_before_total(a: Seq<char>, b: Seq<char>)
    ensures
        a == b || path_before(a, b) || path_before(b, a),
    decreases a.len(),
{
    if a.len() > 0 && b.len() > 0 {
        if a[0] == b[0] {
            lemma_before_total(a.drop_first(), b.drop_first());
            if a.drop_first() == b.drop_first() {
                assert(a =~= seq![a[0]] + a.drop_first());
                assert(b =~= seq![b[0]] + b.drop_first());
            }
        } else {
            assert(a[0] as u32 != b[0] as u32) by {
                vstd::utf8::char_u32_cast(a[0], a[0] as u32);
                vstd::utf8::char_u32_cast(b[0], b[0] as u32);
            }
        }
    } else if a.len() == 0 && b.len() == 0 {
        assert(a =~= b);
    }
}

/// What comes before a path comes before all that the path comes before.
pub proof fn lemma_before_transitive(a: Seq<char>, b: Seq<char>, c: Seq<char>)
    requires
        path_before(a, b),
        path_before(b, c),
    ensures
        path_before(a, c),
    decreases a.len(),
{
    if a.len() > 0 {
        if a[0] == b[0] && b[0] == c[0] {
            lemma_before_transitive(a.drop_first(), b.drop_first(), c.drop_first());
        }
    }
}

/// A path that does not come before `b` comes before nothing that `b` does
/// not come after.
pub proof fn lemma_not_before_transitive(a: Seq<char>, b: Seq<char>, c: Seq<char>)
    requires
        !path_before(b, a),
        !path_before(c, b),
    ensures
        !path_before(c, a),
{
    lemma_before_total(a, b);
    lemma_before_total(b, c);
    if path_before(c, a) {
        if a == b {
        } else if b == c {
        } else {
            lemma_before_transitive(c, a, b);
        }
    }
}

/// Whether path `a` comes strictly before path `b`.
pub fn comes_before(a: &Vec<char>, b: &Vec<char>) -> (r: bool)
    ensures
        r == path_before(a@, b@),
{
    let mut i: usize = 0;
    assert(a@.skip(0) =~= a@);
    assert(b@.skip(0) =~= b@);
    while i < a.len() && i < b.len() && a[i] == b[i]
        invariant
            i <= a.len(),
            i <= b.len(),
            path_before(a@, b@) == path_before(a@.skip(i as int), b@.skip(i as int)),
        decreases a.len() - i,
    {
        proof {
            assert(a@.skip(i as int).drop_first() =~= a@.skip(i as int + 1));
            assert(b@.skip(i as int).drop_first() =~= b@.skip(i as int + 1));
        }
        i += 1;
    }
    if i >= b.len() {
        false
    } else if i >= a.len() {
        true
    } else {
        let x = a[i];
        let y = b[i];
        assert(a@.skip(i as int)[0] == x);
        assert(b@.skip(i as int)[0] == y);
        if x == '/' {
            true
        } else if y == '/' {
            false
        } else {
            (x as u32) < (y as u32)
        }
    }
}

/// The order with `x` put in: `x` goes before the entries at the end that
/// its key comes strictly before, and after all others.
pub open spec fn insert_index(keys: Seq<Seq<char>>, order: Seq<usize>, x: usize) -> Seq<usize>
    decreases order.len(),
{
    if order.len() == 0 {
        seq![x]
    } else if path_before(keys[x as int], keys[order.last() as int]) {
        insert_index(keys, order.drop_last(), x).push(order.last())
    } else {
        order.push(x)
    }
}

/// The first `n` indices in the order of their keys; of two equal keys the
/// one that stands first stays first.
pub open spec fn sort_prefix(keys: Seq<Seq<char>>, n: nat) -> Seq<usize>
    decreases n,
{
    if n == 0 {
        seq![]
    } else {
        insert_index(keys, sort_prefix(keys, (n - 1) as nat), (n - 1) as usize)
    }
}

/// The indices of `keys` in the order of the keys.
pub open spec fn sort_order(keys: Seq<Seq<char>>) -> Seq<usize> {
    sort_prefix(keys, keys.len())
}

/// The items of `s` in the given order.
pub open spec fn in_order<T>(s: Seq<T>, order: Seq<usize>) -> Seq<T> {
    Seq::new(order.len(), |k: int| s[order[k] as int])
}

/// No key in the order comes before one that stands earlier in it.
pub open spec fn is_sorted(keys: Seq<Seq<char>>, order: Seq<usize>) -> bool {
    forall|a: int, b: int|
        0 <= a < b < order.len() ==> !path_before(
            keys[#[trigger] order[b] as int],
            keys[#[trigger] order[a] as int],
        )
}

/// Each index below `n` stands in the order once, and nothing else.
pub open spec fn is_permutation(order: Seq<usize>, n: nat) -> bool {
    &&& order.len() == n
    &&& forall|k: int| 0 <= k < order.len() ==> #[trigger] order[k] < n
    &&& forall|a: int, b: int| 0 <= a < b < order.len() ==> #[trigger] order[a] != #[trigger] order[b]
}

/// Putting `x` into the order puts it at the place before the entries at
/// the end that its key comes strictly before.
proof fn lemma_insert_at(keys: Seq<Seq<char>>, order: Seq<usize>, x: usize, p: int)
    requires
        0 <= p <= order.len(),
        forall|k: int|
            p <= k < order.len() ==> path_before(keys[x as int], keys[#[trigger] order[k] as int]),
        p > 0 ==> !path_before(keys[x as int], keys[order[p - 1] as int]),
    ensures
        insert_index(keys, order, x) == order.insert(p, x),
    decreases order.len() - p,
{
    if order.len() == 0 {
        assert(order.insert(p, x) =~= seq![x]);
    } else if p == order.len() {
        assert(order.insert(p, x) =~= order.push(x));
    } else {
        assert(path_before(keys[x as int], keys[order[order.len() - 1] as int]));
        let shorter = order.drop_last();
        assert forall|k: int| p <= k < shorter.len() implies path_before(
            keys[x as int],
            keys[#[trigger] shorter[k] as int],
        ) by {
            assert(shorter[k] == order[k]);
        }
        if p > 0 {
            assert(shorter[p - 1] == order[p - 1]);
        }
        lemma_insert_at(keys, shorter, x, p);
        assert(order.insert(p, x) =~= shorter.insert(p, x).push(order.last()));
    }
}

/// Putting a new index into a sorted order of the indices below it gives a
/// sorted order of the indices up to it.
proof fn lemma_insert_keeps(keys: Seq<Seq<char>>, order: Seq<usize>, x: usize, p: int)
    requires
        x < keys.len(),
        is_permutation(order, x as nat),
        is_sorted(keys, order),
        0 <= p <= order.len(),
        forall|k: int|
            p <= k < order.len() ==> path_before(keys[x as int], keys[#[trigger] order[k] as int]),
        p > 0 ==> !path_before(keys[x as int], keys[order[p - 1] as int]),
    ensures
        is_permutation(order.insert(p, x), (x + 1) as nat),
        is_sorted(keys, order.insert(p, x)),
{
    let next = order.insert(p, x);
    assert forall|k: int| 0 <= k < next.len() implies #[trigger] next[k] < x + 1 by {
        if k < p {
            assert(next[k] == order[k]);
        } else if k > p {
            assert(next[k] == order[k - 1]);
        }
    }
    assert forall|a: int, b: int| 0 <= a < b < next.len() implies #[trigger] next[a]
        != #[trigger] next[b] by {
        let ia = if a < p { a } else { a - 1 };
        let ib = if b < p { b } else { b - 1 };
        if a != p {
            assert(next[a] == order[ia]);
        }
        if b != p {
            assert(next[b] == order[ib]);
        }
    }
    assert forall|a: int, b: int| 0 <= a < b < next.len() implies !path_before(
        keys[#[trigger] next[b] as int],
        keys[#[trigger] next[a] as int],
    ) by {
        let kx = keys[x as int];
        if b == p {
            // `a` stands before the place of `x`
            assert(next[a] == order[a]);
            if a < p - 1 {
                assert(!path_before(keys[order[p - 1] as int], keys[order[a] as int]));
                lemma_not_before_transitive(keys[order[a] as int], keys[order[p - 1] as int], kx);
            }
        } else if a == p {
            assert(next[b] == order[b - 1]);
            assert(path_before(kx, keys[order[b - 1] as int]));
            lemma_before_irreflexive(kx);
            if path_before(keys[order[b - 1] as int], kx) {
                lemma_before_transitive(kx, keys[order[b - 1] as int], kx);
            }
        } else {
            let ia = if a < p { a } else { a - 1 };
            let ib = if b < p { b } else { b - 1 };
            assert(next[a] == order[ia]);
            assert(next[b] == order[ib]);
        }
    }
}

/// The order of the keys holds each index once, and no key in it comes
/// before one that stands earlier.
pub proof fn lemma_sort_prefix(keys: Seq<Seq<char>>, n: nat)
    requires
        n <= keys.len(),
        n <= usize::MAX,
    ensures
        is_permutation(sort_prefix(keys, n), n),
        is_sorted(keys, sort_prefix(keys, n)),
    decreases n,
{
    if n > 0 {
        let order = sort_prefix(keys, (n - 1) as nat);
        let x = (n - 1) as usize;
        lemma_sort_prefix(keys, (n - 1) as nat);
        let p = insertion_point(keys, order, x);
        lemma_insertion_point(keys, order, x);
        lemma_insert_at(keys, order, x, p);
        lemma_insert_keeps(keys, order, x, p);
    }
}

/// Where `x` goes in `order`: before the entries at the end that its key
/// comes strictly before.
pub open spec fn insertion_point(keys: Seq<Seq<char>>, order: Seq<usize>, x: usize) -> int
    decreases order.len(),
{
    if order.len() > 0 && path_before(keys[x as int], keys[order.last() as int]) {
        insertion_point(keys, order.drop_last(), x)
    } else {
        order.len() as int
    }
}

/// The key of `x` comes strictly before the keys from its place on, and not
/// before the key in front of its place.
proof fn lemma_insertion_point(keys: Seq<Seq<char>>, order: Seq<usize>, x: usize)
    ensures
        0 <= insertion_point(keys, order, x) <= order.len(),
        forall|k: int|
            insertion_point(keys, order, x) <= k < order.len() ==> path_before(
                keys[x as int],
                keys[#[trigger] order[k] as int],
            ),
        insertion_point(keys, order, x) > 0 ==> !path_before(
            keys[x as int],
            keys[order[insertion_point(keys, order, x) - 1] as int],
        ),
    decreases order.len(),
{
    if order.len() > 0 && path_before(keys[x as int], keys[order.last() as int]) {
        let shorter = order.drop_last();
        lemma_insertion_point(keys, shorter, x);
        let p = insertion_point(keys, shorter, x);
        assert forall|k: int| p <= k < order.len() implies path_before(
            keys[x as int],
            keys[#[trigger] order[k] as int],
        ) by {
            if k < shorter.len() {
                assert(order[k] == shorter[k]);
            }
        }
        if p > 0 {
            assert(order[p - 1] == shorter[p - 1]);
        }
    }
}

/// The indices of `keys` in the order of the keys.
pub fn sorted_order(keys: &Vec<Vec<char>>) -> (r: Vec<usize>)
    ensures
        r@ == sort_order(texts(keys@)),
        is_permutation(r@, keys@.len()),
        is_sorted(texts(keys@), r@),
{
    let ghost ks = texts(keys@);
    let mut order: Vec<usize> = Vec::new();
    let mut i: usize = 0;
    assert(order@ =~= sort_prefix(ks, 0));
    while i < keys.len()
        invariant
            i <= keys.len(),
            ks == texts(keys@),
            order@ == sort_prefix(ks, i as nat),
            is_permutation(order@, i as nat),
            is_sorted(ks, order@),
        decreases keys.len() - i,
    {
        let mut p: usize = order.len();
        while p > 0 && comes_before(&keys[i], &keys[order[p - 1]])
            invariant
                i < keys.len(),
                ks == texts(keys@),
                p <= order.len(),
                is_permutation(order@, i as nat),
                forall|k: int|
                    p <= k < order.len() ==> path_before(ks[i as int], ks[#[trigger] order@[k] as int]),
            decreases p,
        {
            p -= 1;
        }
        proof {
            lemma_insert_at(ks, order@, i, p as int);
            lemma_insert_keeps(ks, order@, i, p as int);
        }
        order.insert(p, i);
        i += 1;
    }
    order
}

/// The keys of some items.
pub open spec fn keys_of<T>(s: Seq<T>, key: spec_fn(T) -> Seq<char>) -> Seq<Seq<char>> {
    Seq::new(s.len(), |i: int| key(s[i]))
}

/// No two items have the same key.
pub open spec fn distinct_keys<T>(s: Seq<T>, key: spec_fn(T) -> Seq<char>) -> bool {
    forall|i: int, j: int| 0 <= i < j < s.len() ==> key(#[trigger] s[i]) != key(#[trigger] s[j])
}

/// The key of each item comes strictly before the keys of all items behind
/// it.
pub open spec fn strictly_sorted<T>(s: Seq<T>, key: spec_fn(T) -> Seq<char>) -> bool {
    forall|i: int, j: int|
        0 <= i < j < s.len() ==> path_before(key(#[trigger] s[i]), key(#[trigger] s[j]))
}

/// Two sequences hold the same items, in whatever order and however often.
pub open spec fn same_items<T>(a: Seq<T>, b: Seq<T>) -> bool {
    forall|e: T| a.contains(e) <==> b.contains(e)
}

/// The items in the order of their keys.
pub open spec fn sorted_by_key<T>(s: Seq<T>, key: spec_fn(T) -> Seq<char>) -> Seq<T> {
    in_order(s, sort_order(keys_of(s, key)))
}

/// Every index below `n` stands in the order of the first `n` keys.
proof fn lemma_sort_prefix_covers(keys: Seq<Seq<char>>, n: nat, x: usize)
    requires
        x < n <= keys.len(),
        n <= usize::MAX,
    ensures
        sort_prefix(keys, n).contains(x),
    decreases n,
{
    let order = sort_prefix(keys, (n - 1) as nat);
    let last = (n - 1) as usize;
    lemma_sort_prefix(keys, (n - 1) as nat);
    let p = insertion_point(keys, order, last);
    lemma_insertion_point(keys, order, last);
    lemma_insert_at(keys, order, last, p);
    let next = order.insert(p, last);
    if x == last {
        assert(next[p] == x);
    } else {
        lemma_sort_prefix_covers(keys, (n - 1) as nat, x);
        let k = choose|k: int| 0 <= k < order.len() && order[k] == x;
        if k < p {
            assert(next[k] == x);
        } else {
            assert(next[k + 1] == x);
        }
    }
}

/// Items with different keys, put in the order of their keys, are strictly
/// sorted, and they are the same items.
pub proof fn lemma_sorted_by_key<T>(s: Seq<T>, key: spec_fn(T) -> Seq<char>)
    requires
        s.len() <= usize::MAX,
        distinct_keys(s, key),
    ensures
        strictly_sorted(sorted_by_key(s, key), key),
        same_items(sorted_by_key(s, key), s),
        sorted_by_key(s, key).len() == s.len(),
{
    let keys = keys_of(s, key);
    let order = sort_order(keys);
    let x = sorted_by_key(s, key);
    lemma_sort_prefix(keys, keys.len());
    assert forall|i: int, j: int| 0 <= i < j < x.len() implies path_before(
        key(#[trigger] x[i]),
        key(#[trigger] x[j]),
    ) by {
        let a = order[i] as int;
        let b = order[j] as int;
        assert(order[i] != order[j]);
        assert(!path_before(keys[order[j] as int], keys[order[i] as int]));
        assert(keys[a] == key(s[a]) && keys[b] == key(s[b]));
        if a < b {
            assert(key(s[a]) != key(s[b]));
        } else {
            assert(key(s[b]) != key(s[a]));
        }
        lemma_before_total(keys[a], keys[b]);
    }
    assert forall|e: T| x.contains(e) <==> s.contains(e) by {
        if x.contains(e) {
            let k = choose|k: int| 0 <= k < x.len() && x[k] == e;
            assert(s[order[k] as int] == e);
        }
        if s.contains(e) {
            let i = choose|i: int| 0 <= i < s.len() && s[i] == e;
            lemma_sort_prefix_covers(keys, keys.len(), i as usize);
            let k = choose|k: int| 0 <= k < order.len() && order[k] == i as usize;
            assert(x[k] == e);
        }
    }
}

/// There is one way only to put items in strict order: two strictly sorted
/// sequences of the same items are the same sequence.
pub proof fn lemma_strictly_sorted_unique<T>(x: Seq<T>, y: Seq<T>, key: spec_fn(T) -> Seq<char>)
    requires
        strictly_sorted(x, key),
        strictly_sorted(y, key),
        same_items(x, y),
    ensures
        x == y,
    decreases x.len(),
{
    if x.len() == 0 {
        if y.len() > 0 {
            assert(y.contains(y[0]));
            assert(x.contains(y[0]));
        }
        assert(x =~= y);
    } else if y.len() == 0 {
        assert(x.contains(x[0]));
        assert(y.contains(x[0]));
    } else {
        let xl = x.last();
        let yl = y.last();
        assert(x.contains(xl));
        assert(y.contains(yl));
        assert(y.contains(xl));
        assert(x.contains(yl));
        let i = choose|i: int| 0 <= i < x.len() && x[i] == yl;
        let j = choose|j: int| 0 <= j < y.len() && y[j] == xl;
        lemma_before_irreflexive(key(xl));
        lemma_before_irreflexive(key(yl));
        if i < x.len() - 1 {
            assert(path_before(key(x[i]), key(x[x.len() - 1])));
            if j < y.len() - 1 {
                assert(path_before(key(y[j]), key(y[y.len() - 1])));
                lemma_before_transitive(key(yl), key(xl), key(yl));
            }
        }
        assert(xl == yl);
        let xs = x.drop_last();
        let ys = y.drop_last();
        assert forall|a: int, b: int| 0 <= a < b < xs.len() implies path_before(
            key(#[trigger] xs[a]),
            key(#[trigger] xs[b]),
        ) by {
            assert(xs[a] == x[a] && xs[b] == x[b]);
        }
        assert forall|a: int, b: int| 0 <= a < b < ys.len() implies path_before(
            key(#[trigger] ys[a]),
            key(#[trigger] ys[b]),
        ) by {
            assert(ys[a] == y[a] && ys[b] == y[b]);
        }
        assert forall|e: T| xs.contains(e) <==> ys.contains(e) by {
            if xs.contains(e) {
                let k = choose|k: int| 0 <= k < xs.len() && xs[k] == e;
                assert(x[k] == e);
                assert(path_before(key(x[k]), key(x[x.len() - 1])));
                assert(x.contains(e));
                assert(y.contains(e));
                let m = choose|m: int| 0 <= m < y.len() && y[m] == e;
                if m == y.len() - 1 {
                    lemma_before_irreflexive(key(e));
                }
                assert(ys[m] == e);
            }
            if ys.contains(e) {
                let k = choose|k: int| 0 <= k < ys.len() && ys[k] == e;
                assert(y[k] == e);
                assert(path_before(key(y[k]), key(y[y.len() - 1])));
                assert(y.contains(e));
                assert(x.contains(e));
                let m = choose|m: int| 0 <= m < x.len() && x[m] == e;
                if m == x.len() - 1 {
                    lemma_before_irreflexive(key(e));
                }
                assert(xs[m] == e);
            }
        }
        lemma_strictly_sorted_unique(xs, ys, key);
        assert(x =~= xs.push(xl));
        assert(y =~= ys.push(yl));
    }
}

/// The order of the keys does not depend on the order in which the items
/// come: two sequences of the same items, each without two items of one key,
/// are the same sequence once they are put in the order of their keys.
pub proof fn law_sorting_forgets_the_given_order<T>(
    a: Seq<T>,
    b: Seq<T>,
    key: spec_fn(T) -> Seq<char>,
)
    requires
        same_items(a, b),
        distinct_keys(a, key),
        distinct_keys(b, key),
        a.len() <= usize::MAX,
        b.len() <= usize::MAX,
    ensures
        sorted_by_key(a, key) == sorted_by_key(b, key),
{
    lemma_sorted_by_key(a, key);
    lemma_sorted_by_key(b, key);
    let x = sorted_by_key(a, key);
    let y = sorted_by_key(b, key);
    assert forall|e: T| x.contains(e) <==> y.contains(e) by {
        assert(x.contains(e) <==> a.contains(e));
        assert(y.contains(e) <==> b.contains(e));
    }
    lemma_strictly_sorted_unique(x, y, key);
}

} // verus!
