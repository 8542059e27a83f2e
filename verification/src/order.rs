//! Putting things in order: text by its characters, entries by an integer
//! key, and in both cases what came first stays first among equals.

use vstd::prelude::*;

verus! {

/// Text `a` stands at or before text `b` in lexical order: at the first
/// place where they differ `a` has the smaller character, or `a` ends first.
pub open spec fn text_le(a: Seq<char>, b: Seq<char>) -> bool
    decreases a.len(),
{
    if a.len() == 0 {
        true
    } else if b.len() == 0 {
        false
    } else if a[0] != b[0] {
        a[0] < b[0]
    } else {
        text_le(a.skip(1), b.skip(1))
    }
}

/// Of two texts, one stands at or before the other.
pub proof fn lemma_text_le_total(a: Seq<char>, b: Seq<char>)
    ensures
        text_le(a, b) || text_le(b, a),
    decreases a.len(),
{
    if a.len() > 0 && b.len() > 0 && a[0] == b[0] {
        lemma_text_le_total(a.skip(1), b.skip(1));
    }
}

/// Lexical order is transitive.
pub proof fn lemma_text_le_transitive(a: Seq<char>, b: Seq<char>, c: Seq<char>)
    requires
        text_le(a, b),
        text_le(b, c),
    ensures
        text_le(a, c),
    decreases a.len(),
{
    if a.len() > 0 && b.len() > 0 && c.len() > 0 && a[0] == b[0] && b[0] == c[0] {
        lemma_text_le_transitive(a.skip(1), b.skip(1), c.skip(1));
    }
}

/// Whether text `a` stands at or before text `b` in lexical order.
pub fn chars_le(a: &Vec<char>, b: &Vec<char>) -> (le: bool)
    ensures
        le == text_le(a@, b@),
{
    let mut i: usize = 0;
    assert(a@.skip(0) =~= a@ && b@.skip(0) =~= b@);
    while i < a.len() && i < b.len()
        invariant
            i <= a.len(),
            i <= b.len(),
            text_le(a@, b@) == text_le(a@.skip(i as int), b@.skip(i as int)),
        decreases a.len() - i,
    {
        proof {
            let ra = a@.skip(i as int);
            let rb = b@.skip(i as int);
            assert(ra[0] == a@[i as int]);
            assert(rb[0] == b@[i as int]);
            assert(ra.skip(1) =~= a@.skip(i + 1));
            assert(rb.skip(1) =~= b@.skip(i + 1));
        }
        if a[i] != b[i] {
            return a[i] < b[i];
        }
        i += 1;
    }
    i >= a.len()
}

/// A way to compare the things of a list by their positions.
pub type Comparison = spec_fn(int, int) -> bool;

/// The thing at `i` comes out before the thing at `j`: it sorts before it,
/// or they sort alike and `i` is the earlier position.
pub open spec fn comes_before(le: Comparison, i: int, j: int) -> bool {
    le(i, j) && (le(j, i) ==> i < j)
}

/// `order` lists every position below `n` once, each before all that come
/// out after it. There is one such list: the stable sort.
pub open spec fn is_stable_order(n: nat, le: Comparison, order: Seq<usize>) -> bool {
    &&& order.len() == n
    &&& forall|a: int| 0 <= a < order.len() ==> #[trigger] order[a] < n
    &&& forall|a: int, b: int|
        0 <= a < b < order.len() ==> comes_before(
            le,
            #[trigger] order[a] as int,
            #[trigger] order[b] as int,
        )
    &&& forall|i: int| 0 <= i < n ==> order.contains(#[trigger] (i as usize))
}

/// The positions below `n` in sorted order, equal things in their first
/// order.
pub open spec fn stable_order_of(n: nat, le: Comparison) -> Seq<usize> {
    choose|order: Seq<usize>| is_stable_order(n, le, order)
}

/// The items in the order given by a list of positions.
pub open spec fn reorder<T>(items: Seq<T>, order: Seq<usize>) -> Seq<T> {
    Seq::new(order.len(), |a: int| items[order[a] as int])
}

/// Two stable orders of the same things agree up to position `k`.
#[verifier::rlimit(40)]
proof fn lemma_stable_orders_agree(
    n: nat,
    le: Comparison,
    first: Seq<usize>,
    second: Seq<usize>,
    k: int,
)
    requires
        is_stable_order(n, le, first),
        is_stable_order(n, le, second),
        0 <= k <= n,
    ensures
        forall|a: int| 0 <= a < k ==> first[a] == second[a],
    decreases k,
{
    if k > 0 {
        lemma_stable_orders_agree(n, le, first, second, k - 1);
        let a = k - 1;
        let x = first[a];
        let y = second[a];
        if x != y {
            assert(second.contains(x as int as usize));
            let b = choose|b: int| 0 <= b < second.len() && second[b] == x;
            if b < a {
                assert(first[b] == x);
                assert(comes_before(le, first[b] as int, first[a] as int));
            }
            assert(comes_before(le, second[a] as int, second[b] as int));
            assert(first.contains(y as int as usize));
            let c = choose|c: int| 0 <= c < first.len() && first[c] == y;
            if c < a {
                assert(second[c] == y);
                assert(comes_before(le, second[c] as int, second[a] as int));
            }
            assert(comes_before(le, first[a] as int, first[c] as int));
        }
    }
}

/// There is only one stable order.
pub proof fn lemma_stable_order_unique(n: nat, le: Comparison, order: Seq<usize>)
    requires
        is_stable_order(n, le, order),
    ensures
        order == stable_order_of(n, le),
{
    let chosen = stable_order_of(n, le);
    lemma_stable_orders_agree(n, le, order, chosen, n as int);
    assert(order =~= chosen);
}

/// Any two of the things below `n` can be compared, and the comparison is
/// transitive.
pub open spec fn is_preorder(n: nat, le: Comparison) -> bool {
    &&& forall|i: int, j: int| 0 <= i < n && 0 <= j < n ==> #[trigger] le(i, j) || le(j, i)
    &&& forall|i: int, j: int, k: int|
        0 <= i < n && 0 <= j < n && 0 <= k < n && #[trigger] le(i, j) && #[trigger] le(j, k)
            ==> le(i, k)
}

/// Position `k` put into a stable order of the positions below it, behind
/// everything that sorts at or before it and in front of everything that
/// sorts behind it, gives a stable order of the positions up to `k`.
#[verifier::rlimit(40)]
pub proof fn lemma_insert_keeps_order(k: nat, le: Comparison, order: Seq<usize>, p: int)
    requires
        k < usize::MAX,
        is_preorder(k + 1, le),
        is_stable_order(k, le, order),
        0 <= p <= k,
        forall|a: int| p <= a < order.len() ==> !le(#[trigger] order[a] as int, k as int),
        p > 0 ==> le(order[p - 1] as int, k as int),
    ensures
        is_stable_order(k + 1, le, order.insert(p, k as usize)),
{
    let grown = order.insert(p, k as usize);
    assert forall|a: int, b: int| 0 <= a < b < grown.len() implies comes_before(
        le,
        #[trigger] grown[a] as int,
        #[trigger] grown[b] as int,
    ) by {
        if b == p {
            // An old element in front of the newcomer.
            assert(grown[a] == order[a]);
            if a < p - 1 {
                assert(comes_before(le, order[a] as int, order[p - 1] as int));
                assert(le(order[a] as int, order[p - 1] as int) && le(
                    order[p - 1] as int,
                    k as int,
                ));
            }
        } else if a == p {
            // An old element behind the newcomer.
            assert(grown[b] == order[b - 1]);
            assert(le(k as int, order[b - 1] as int) || le(order[b - 1] as int, k as int));
        } else {
            let oa = if a < p {
                a
            } else {
                a - 1
            };
            let ob = if b < p {
                b
            } else {
                b - 1
            };
            assert(grown[a] == order[oa]);
            assert(grown[b] == order[ob]);
            assert(comes_before(le, order[oa] as int, order[ob] as int));
        }
    }
    assert forall|i: int| 0 <= i < k + 1 implies grown.contains(#[trigger] (i as usize)) by {
        if i == k {
            assert(grown[p] == k);
        } else {
            assert(order.contains(i as usize));
            let a = choose|a: int| 0 <= a < order.len() && order[a] == i as usize;
            if a < p {
                assert(grown[a] == i as usize);
            } else {
                assert(grown[a + 1] == i as usize);
            }
        }
    }
    assert forall|a: int| 0 <= a < grown.len() implies #[trigger] grown[a] < k + 1 by {
        if a < p {
            assert(grown[a] == order[a]);
        } else if a > p {
            assert(grown[a] == order[a - 1]);
        }
    }
}

/// Where position `k` goes in a stable order of the positions below it:
/// the place behind the last element that sorts at or before it.
proof fn lemma_insertion_point(k: nat, le: Comparison, order: Seq<usize>, from: int) -> (p: int)
    requires
        0 <= from <= order.len(),
        forall|a: int| from <= a < order.len() ==> !le(#[trigger] order[a] as int, k as int),
    ensures
        0 <= p <= from,
        forall|a: int| p <= a < order.len() ==> !le(#[trigger] order[a] as int, k as int),
        p > 0 ==> le(order[p - 1] as int, k as int),
    decreases from,
{
    if from > 0 && !le(order[from - 1] as int, k as int) {
        lemma_insertion_point(k, le, order, from - 1)
    } else {
        from
    }
}

/// Things that can be compared have a stable order.
pub proof fn lemma_stable_order_exists(n: nat, le: Comparison)
    requires
        n <= usize::MAX,
        is_preorder(n, le),
    ensures
        is_stable_order(n, le, stable_order_of(n, le)),
    decreases n,
{
    if n == 0 {
        assert(is_stable_order(n, le, Seq::<usize>::empty()));
    } else {
        let k = (n - 1) as nat;
        lemma_stable_order_exists(k, le);
        let order = stable_order_of(k, le);
        let p = lemma_insertion_point(k, le, order, order.len() as int);
        lemma_insert_keeps_order(k, le, order, p);
    }
}

/// What is known of the items in stable order: they are the items at the
/// positions of the order, each position is used once, and each item sorts
/// at or before those behind it.
pub proof fn lemma_reorder<T>(items: Seq<T>, le: Comparison, order: Seq<usize>)
    requires
        items.len() <= usize::MAX,
        is_stable_order(items.len(), le, order),
    ensures
        reorder(items, order).len() == items.len(),
        forall|a: int|
            0 <= a < items.len() ==> #[trigger] reorder(items, order)[a] == items[order[a] as int],
        forall|a: int, b: int|
            0 <= a < b < items.len() ==> le(#[trigger] order[a] as int, #[trigger] order[b] as int),
        forall|a: int, b: int| 0 <= a < b < items.len() ==> order[a] != order[b],
        forall|i: int| 0 <= i < items.len() ==> order.contains(#[trigger] (i as usize)),
        forall|i: int| 0 <= i < items.len() ==> reorder(items, order).contains(#[trigger] items[i]),
        forall|a: int| 0 <= a < items.len() ==> items.contains(#[trigger] reorder(items, order)[a]),
{
    assert forall|a: int, b: int| 0 <= a < b < items.len() implies order[a] != order[b] by {
        assert(comes_before(le, order[a] as int, order[b] as int));
    }
    assert forall|i: int| 0 <= i < items.len() implies reorder(items, order).contains(
        #[trigger] items[i],
    ) by {
        assert(order.contains(i as usize));
        let a = choose|a: int| 0 <= a < order.len() && order[a] == i as usize;
        assert(reorder(items, order)[a] == items[i]);
    }
    assert forall|a: int| 0 <= a < items.len() implies items.contains(
        #[trigger] reorder(items, order)[a],
    ) by {
        assert(order[a] < items.len());
        assert(items[order[a] as int] == reorder(items, order)[a]);
    }
}

/// A list of things that can be compared by position.
pub trait Ranking {
    /// How many things there are.
    spec fn count(&self) -> nat;

    /// The thing at position `i` sorts at or before the thing at `j`.
    spec fn le(&self, i: int, j: int) -> bool;

    /// Any two things can be compared.
    proof fn lemma_total(&self, i: int, j: int)
        requires
            0 <= i < self.count(),
            0 <= j < self.count(),
        ensures
            self.le(i, j) || self.le(j, i),
    ;

    /// The comparison is transitive.
    proof fn lemma_transitive(&self, i: int, j: int, k: int)
        requires
            0 <= i < self.count(),
            0 <= j < self.count(),
            0 <= k < self.count(),
            self.le(i, j),
            self.le(j, k),
        ensures
            self.le(i, k),
    ;

    /// How many things there are.
    fn size(&self) -> (n: usize)
        ensures
            n == self.count(),
    ;

    /// Compares the things at two positions.
    fn at_most(&self, i: usize, j: usize) -> (le: bool)
        requires
            i < self.count(),
            j < self.count(),
        ensures
            le == self.le(i as int, j as int),
    ;
}

/// The comparison of a ranking.
pub open spec fn ranking_le<R: Ranking>(r: &R) -> Comparison {
    |i: int, j: int| r.le(i, j)
}

/// The comparison of a ranking is one by which things can be compared.
pub proof fn lemma_ranking_is_preorder<R: Ranking>(r: &R)
    ensures
        is_preorder(r.count(), ranking_le(r)),
{
    let le = ranking_le(r);
    let n = r.count();
    assert forall|i: int, j: int| 0 <= i < n && 0 <= j < n implies #[trigger] le(i, j) || le(
        j,
        i,
    ) by {
        r.lemma_total(i, j);
    }
    assert forall|i: int, j: int, k: int|
        0 <= i < n && 0 <= j < n && 0 <= k < n && #[trigger] le(i, j) && #[trigger] le(
            j,
            k,
        ) implies le(i, k) by {
        r.lemma_transitive(i, j, k);
    }
}

/// The positions of `r` in sorted order, equal things in their first order.
#[verifier::rlimit(40)]
pub fn stable_order<R: Ranking>(r: &R) -> (order: Vec<usize>)
    ensures
        is_stable_order(r.count(), ranking_le(r), order@),
        order@ == stable_order_of(r.count(), ranking_le(r)),
{
    let n = r.size();
    let mut order: Vec<usize> = Vec::new();
    let mut k: usize = 0;
    proof {
        lemma_ranking_is_preorder(r);
    }
    while k < n
        invariant
            k <= n,
            n == r.count(),
            is_preorder(n as nat, ranking_le(r)),
            is_stable_order(k as nat, ranking_le(r), order@),
        decreases n - k,
    {
        let mut p: usize = order.len();
        while p > 0 && !r.at_most(order[p - 1], k)
            invariant
                p <= order.len(),
                k < n,
                n == r.count(),
                is_stable_order(k as nat, ranking_le(r), order@),
                forall|a: int|
                    p <= a < order.len() ==> !ranking_le(r)(#[trigger] order@[a] as int, k as int),
            decreases p,
        {
            p -= 1;
        }
        proof {
            lemma_insert_keeps_order(k as nat, ranking_le(r), order@, p as int);
        }
        order.insert(p, k);
        k += 1;
    }
    proof {
        lemma_stable_order_unique(r.count(), ranking_le(r), order@);
    }
    order
}

/// Integer keys are compared by value.
pub open spec fn by_key(keys: Seq<int>) -> Comparison {
    |i: int, j: int| keys[i] <= keys[j]
}

/// Texts are compared in lexical order.
pub open spec fn by_text(texts: Seq<Seq<char>>) -> Comparison {
    |i: int, j: int| text_le(texts[i], texts[j])
}

/// The texts in lexical order.
pub open spec fn sorted_texts(texts: Seq<Seq<char>>) -> Seq<Seq<char>> {
    reorder(texts, stable_order_of(texts.len(), by_text(texts)))
}

/// The numbers in ascending order.
pub open spec fn sorted_numbers(numbers: Seq<i32>) -> Seq<i32> {
    reorder(numbers, stable_order_of(numbers.len(), by_key(numbers.map_values(|n: i32| n as int))))
}

/// Two comparisons that agree on the positions below `n` have the same
/// stable order.
pub proof fn lemma_stable_order_same(n: nat, first: Comparison, second: Comparison)
    requires
        forall|i: int, j: int|
            0 <= i < n && 0 <= j < n ==> #[trigger] first(i, j) == #[trigger] second(i, j),
        exists|order: Seq<usize>| is_stable_order(n, first, order),
    ensures
        stable_order_of(n, first) == stable_order_of(n, second),
        is_stable_order(n, second, stable_order_of(n, second)),
{
    let order = stable_order_of(n, first);
    assert(is_stable_order(n, second, order)) by {
        assert forall|a: int, b: int| 0 <= a < b < order.len() implies comes_before(
            second,
            #[trigger] order[a] as int,
            #[trigger] order[b] as int,
        ) by {
            assert(comes_before(first, order[a] as int, order[b] as int));
        }
    }
    lemma_stable_order_unique(n, second, order);
}

/// Integer keys, compared by value.
pub struct IntKeys {
    pub keys: Vec<i128>,
}

impl Ranking for IntKeys {
    open spec fn count(&self) -> nat {
        self.keys@.len()
    }

    open spec fn le(&self, i: int, j: int) -> bool {
        self.keys@[i] <= self.keys@[j]
    }

    proof fn lemma_total(&self, i: int, j: int) {
    }

    proof fn lemma_transitive(&self, i: int, j: int, k: int) {
    }

    fn size(&self) -> (n: usize) {
        self.keys.len()
    }

    fn at_most(&self, i: usize, j: usize) -> (le: bool) {
        self.keys[i] <= self.keys[j]
    }
}

/// Text keys, compared in lexical order.
pub struct TextKeys {
    pub keys: Vec<Vec<char>>,
}

impl Ranking for TextKeys {
    open spec fn count(&self) -> nat {
        self.keys@.len()
    }

    open spec fn le(&self, i: int, j: int) -> bool {
        text_le(self.keys@[i]@, self.keys@[j]@)
    }

    proof fn lemma_total(&self, i: int, j: int) {
        lemma_text_le_total(self.keys@[i]@, self.keys@[j]@);
    }

    proof fn lemma_transitive(&self, i: int, j: int, k: int) {
        lemma_text_le_transitive(self.keys@[i]@, self.keys@[j]@, self.keys@[k]@);
    }

    fn size(&self) -> (n: usize) {
        self.keys.len()
    }

    fn at_most(&self, i: usize, j: usize) -> (le: bool) {
        chars_le(&self.keys[i], &self.keys[j])
    }
}

/// The integer views of machine keys.
pub open spec fn key_ints(keys: Seq<i128>) -> Seq<int> {
    keys.map_values(|k: i128| k as int)
}

/// The positions of the keys in ascending order of key, equal keys in
/// their first order.
pub fn order_by_key(keys: Vec<i128>) -> (order: Vec<usize>)
    ensures
        order@ == stable_order_of(keys@.len(), by_key(key_ints(keys@))),
        is_stable_order(keys@.len(), by_key(key_ints(keys@)), order@),
{
    let ghost ints = key_ints(keys@);
    let ranking = IntKeys { keys };
    let order = stable_order(&ranking);
    proof {
        lemma_stable_order_same(ints.len(), ranking_le(&ranking), by_key(ints));
    }
    order
}

/// The positions of the texts in lexical order, equal texts in their first
/// order.
pub fn order_by_text(keys: Vec<Vec<char>>) -> (order: Vec<usize>)
    ensures
        order@ == stable_order_of(keys@.len(), by_text(crate::text::vec_views(keys@))),
        is_stable_order(keys@.len(), by_text(crate::text::vec_views(keys@)), order@),
{
    let ghost texts = crate::text::vec_views(keys@);
    let ranking = TextKeys { keys };
    let order = stable_order(&ranking);
    proof {
        lemma_stable_order_same(texts.len(), ranking_le(&ranking), by_text(texts));
    }
    order
}

/// The strings in lexical order.
#[verifier::rlimit(40)]
pub fn sort_strings(items: &Vec<String>) -> (sorted: Vec<String>)
    ensures
        crate::text::views(sorted@) == sorted_texts(crate::text::views(items@)),
{
    let mut keys: Vec<Vec<char>> = Vec::new();
    let mut i: usize = 0;
    while i < items.len()
        invariant
            i <= items.len(),
            crate::text::vec_views(keys@) == crate::text::views(items@).take(i as int),
        decreases items.len() - i,
    {
        let ghost before = crate::text::vec_views(keys@);
        keys.push(crate::text::chars_of(items[i].as_str()));
        assert(crate::text::vec_views(keys@) =~= before.push(items@[i as int]@));
        assert(crate::text::views(items@).take(i + 1) =~= crate::text::views(items@).take(
            i as int,
        ).push(items@[i as int]@));
        i += 1;
    }
    assert(crate::text::views(items@).take(items.len() as int) =~= crate::text::views(items@));
    let order = order_by_text(keys);
    let ghost texts = crate::text::views(items@);
    let mut sorted: Vec<String> = Vec::new();
    let mut a: usize = 0;
    while a < order.len()
        invariant
            a <= order.len(),
            order@.len() == items@.len(),
            texts == crate::text::views(items@),
            is_stable_order(texts.len(), by_text(texts), order@),
            crate::text::views(sorted@) == reorder(texts, order@).take(a as int),
        decreases order.len() - a,
    {
        let ghost before = crate::text::views(sorted@);
        let pos = order[a];
        sorted.push(items[pos].clone());
        assert(crate::text::views(sorted@) =~= before.push(items@[pos as int]@));
        assert(reorder(texts, order@).take(a + 1) =~= reorder(texts, order@).take(a as int).push(
            texts[pos as int],
        ));
        a += 1;
    }
    assert(reorder(texts, order@).take(order.len() as int) =~= reorder(texts, order@));
    sorted
}

/// The numbers in ascending order.
#[verifier::rlimit(40)]
pub fn sort_numbers(items: &Vec<i32>) -> (sorted: Vec<i32>)
    ensures
        sorted@ == sorted_numbers(items@),
{
    let mut keys: Vec<i128> = Vec::new();
    let mut i: usize = 0;
    let ghost ints = items@.map_values(|n: i32| n as int);
    while i < items.len()
        invariant
            i <= items.len(),
            ints == items@.map_values(|n: i32| n as int),
            key_ints(keys@) == ints.take(i as int),
        decreases items.len() - i,
    {
        let ghost before = key_ints(keys@);
        keys.push(items[i] as i128);
        assert(key_ints(keys@) =~= before.push(items@[i as int] as int));
        assert(ints.take(i + 1) =~= ints.take(i as int).push(items@[i as int] as int));
        i += 1;
    }
    assert(ints.take(items.len() as int) =~= ints);
    let order = order_by_key(keys);
    let mut sorted: Vec<i32> = Vec::new();
    let mut a: usize = 0;
    while a < order.len()
        invariant
            a <= order.len(),
            order@.len() == items@.len(),
            ints == items@.map_values(|n: i32| n as int),
            is_stable_order(ints.len(), by_key(ints), order@),
            sorted@ == reorder(items@, order@).take(a as int),
        decreases order.len() - a,
    {
        let pos = order[a];
        sorted.push(items[pos]);
        assert(reorder(items@, order@).take(a + 1) =~= reorder(items@, order@).take(
            a as int,
        ).push(items@[pos as int]));
        a += 1;
    }
    assert(reorder(items@, order@).take(order.len() as int) =~= reorder(items@, order@));
    sorted
}


/// Texts in lexical order: each stands at or before those behind it, and
/// they are the texts that were given, no more and no less.
#[verifier::rlimit(40)]
pub proof fn lemma_sorted_texts(texts: Seq<Seq<char>>)
    requires
        texts.len() <= usize::MAX,
    ensures
        sorted_texts(texts).len() == texts.len(),
        forall|a: int, b: int|
            0 <= a < b < texts.len() ==> text_le(
                #[trigger] sorted_texts(texts)[a],
                #[trigger] sorted_texts(texts)[b],
            ),
        forall|i: int| 0 <= i < texts.len() ==> sorted_texts(texts).contains(#[trigger] texts[i]),
        forall|a: int| 0 <= a < texts.len() ==> texts.contains(#[trigger] sorted_texts(texts)[a]),
{
    let le = by_text(texts);
    assert(is_preorder(texts.len(), le)) by {
        assert forall|i: int, j: int|
            0 <= i < texts.len() && 0 <= j < texts.len() implies #[trigger] le(i, j) || le(
            j,
            i,
        ) by {
            lemma_text_le_total(texts[i], texts[j]);
        }
        assert forall|i: int, j: int, k: int|
            0 <= i < texts.len() && 0 <= j < texts.len() && 0 <= k < texts.len() && #[trigger] le(
                i,
                j,
            ) && #[trigger] le(j, k) implies le(i, k) by {
            lemma_text_le_transitive(texts[i], texts[j], texts[k]);
        }
    }
    lemma_stable_order_exists(texts.len(), le);
    let order = stable_order_of(texts.len(), le);
    lemma_reorder(texts, le, order);
    assert forall|a: int, b: int| 0 <= a < b < texts.len() implies text_le(
        #[trigger] sorted_texts(texts)[a],
        #[trigger] sorted_texts(texts)[b],
    ) by {
        assert(le(order[a] as int, order[b] as int));
    }
}

/// Numbers in ascending order: none is greater than those behind it, and
/// they are the numbers that were given, no more and no less.
pub proof fn lemma_sorted_numbers(numbers: Seq<i32>)
    requires
        numbers.len() <= usize::MAX,
    ensures
        sorted_numbers(numbers).len() == numbers.len(),
        forall|a: int, b: int|
            0 <= a < b < numbers.len() ==> #[trigger] sorted_numbers(numbers)[a]
                <= #[trigger] sorted_numbers(numbers)[b],
        forall|i: int|
            0 <= i < numbers.len() ==> sorted_numbers(numbers).contains(#[trigger] numbers[i]),
        forall|a: int|
            0 <= a < numbers.len() ==> numbers.contains(#[trigger] sorted_numbers(numbers)[a]),
{
    let keys = numbers.map_values(|n: i32| n as int);
    let le = by_key(keys);
    assert(is_preorder(numbers.len(), le));
    lemma_stable_order_exists(numbers.len(), le);
    let order = stable_order_of(numbers.len(), le);
    lemma_reorder(numbers, le, order);
    assert forall|a: int, b: int| 0 <= a < b < numbers.len() implies #[trigger] sorted_numbers(
        numbers,
    )[a] <= #[trigger] sorted_numbers(numbers)[b] by {
        assert(le(order[a] as int, order[b] as int));
    }
}

} // verus!
