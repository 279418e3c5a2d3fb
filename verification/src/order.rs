//! Ordering by key: sorted sets without duplicates (as collecting into a
//! `BTreeSet` gives them) and stable sorting (as `sort_by` does it).
use vstd::prelude::*;

verus! {

/// A value ordered by a key, under a strict total order on keys.
pub trait Keyed: Sized {
    type K;

    spec fn key(&self) -> Self::K;

    spec fn key_lt(a: Self::K, b: Self::K) -> bool;

    /// `key_lt` is irreflexive, transitive and total.
    proof fn lemma_key_order(a: Self::K, b: Self::K, c: Self::K)
        ensures
            !Self::key_lt(a, a),
            Self::key_lt(a, b) && Self::key_lt(b, c) ==> Self::key_lt(a, c),
            a != b ==> Self::key_lt(a, b) || Self::key_lt(b, a),
    ;

    fn key_less(&self, other: &Self) -> (r: bool)
        ensures
            r == Self::key_lt(self.key(), other.key()),
    ;
}

/// The keys of a sequence, in order.
pub open spec fn keys<T: Keyed>(s: Seq<T>) -> Seq<T::K> {
    s.map_values(|x: T| x.key())
}

/// The set of keys of a sequence.
pub open spec fn key_set<T: Keyed>(s: Seq<T>) -> Set<T::K> {
    keys(s).to_set()
}

/// Keys strictly increase: sorted, and no key twice.
pub open spec fn strictly_sorted<T: Keyed>(s: Seq<T>) -> bool {
    forall|i: int, j: int| 0 <= i < j < s.len() ==> T::key_lt(#[trigger] s[i].key(), #[trigger] s[j].key())
}

proof fn lemma_key_set_contains<T: Keyed>(s: Seq<T>, i: int)
    requires
        0 <= i < s.len(),
    ensures
        key_set(s).contains(s[i].key()),
{
    assert(keys(s)[i] == s[i].key());
}

proof fn lemma_key_set_member<T: Keyed>(s: Seq<T>, k: T::K)
    requires
        key_set(s).contains(k),
    ensures
        exists|i: int| 0 <= i < s.len() && s[i].key() == k,
{
    let i = choose|i: int| 0 <= i < keys(s).len() && keys(s)[i] == k;
    assert(s[i].key() == k);
}

/// Inserts `x` into a strictly sorted vector unless its key is already there.
///
/// This is the ordered set of texts and of capture modes: vstd specifies
/// `BTreeSet` only for keys whose order it knows (integers, and tuples and
/// options of them, see `sets`), and gives `String` no specified order.
pub fn insert_unique<T: Keyed>(v: &mut Vec<T>, x: T)
    requires
        strictly_sorted(old(v)@),
    ensures
        strictly_sorted(final(v)@),
        key_set(final(v)@) == key_set(old(v)@).insert(x.key()),
{
    let mut k: usize = 0;
    while k < v.len() && v[k].key_less(&x)
        invariant
            k <= v.len(),
            forall|i: int| 0 <= i < k ==> T::key_lt(#[trigger] v@[i].key(), x.key()),
        decreases v.len() - k,
    {
        k += 1;
    }
    if k < v.len() && !x.key_less(&v[k]) {
        proof {
            T::lemma_key_order(v@[k as int].key(), x.key(), x.key());
            lemma_key_set_contains(v@, k as int);
            assert(key_set(v@).insert(x.key()) =~= key_set(v@));
        }
        return;
    }
    let ghost old_v = v@;
    v.insert(k, x);
    proof {
        let n = v@;
        assert forall|i: int, j: int| 0 <= i < j < n.len() implies T::key_lt(
            #[trigger] n[i].key(),
            #[trigger] n[j].key(),
        ) by {
            if j < k {
                assert(n[i] == old_v[i] && n[j] == old_v[j]);
            } else if j == k {
                assert(n[i] == old_v[i]);
            } else if i == k {
                // x is below old_v[k], which is at or below old_v[j - 1]
                assert(n[j] == old_v[j - 1]);
                T::lemma_key_order(x.key(), old_v[k as int].key(), old_v[k as int].key());
                T::lemma_key_order(old_v[k as int].key(), x.key(), x.key());
                if j - 1 > k {
                    T::lemma_key_order(x.key(), old_v[k as int].key(), old_v[j - 1].key());
                }
            } else if i < k {
                assert(n[i] == old_v[i] && n[j] == old_v[j - 1]);
                // old_v[i] < x < old_v[j - 1]
                T::lemma_key_order(old_v[k as int].key(), x.key(), x.key());
                T::lemma_key_order(x.key(), old_v[k as int].key(), old_v[k as int].key());
                T::lemma_key_order(old_v[i].key(), x.key(), old_v[k as int].key());
                if j - 1 > k {
                    T::lemma_key_order(old_v[i].key(), old_v[k as int].key(), old_v[j - 1].key());
                }
            } else {
                assert(n[i] == old_v[i - 1] && n[j] == old_v[j - 1]);
            }
        }
        assert forall|y: T::K| key_set(n).contains(y) <==> key_set(old_v).insert(x.key()).contains(
            y,
        ) by {
            if key_set(n).contains(y) {
                lemma_key_set_member(n, y);
                let i = choose|i: int| 0 <= i < n.len() && n[i].key() == y;
                if i < k {
                    assert(n[i] == old_v[i]);
                    lemma_key_set_contains(old_v, i);
                } else if i > k {
                    assert(n[i] == old_v[i - 1]);
                    lemma_key_set_contains(old_v, i - 1);
                }
            }
            if key_set(old_v).contains(y) {
                lemma_key_set_member(old_v, y);
                let i = choose|i: int| 0 <= i < old_v.len() && old_v[i].key() == y;
                if i < k {
                    assert(n[i] == old_v[i]);
                    lemma_key_set_contains(n, i);
                } else {
                    assert(n[i + 1] == old_v[i]);
                    lemma_key_set_contains(n, i + 1);
                }
            }
            if y == x.key() {
                assert(n[k as int] == x);
                lemma_key_set_contains(n, k as int);
            }
        }
        assert(key_set(n) =~= key_set(old_v).insert(x.key()));
    }
}

/// Two strictly sorted sequences with the same keys list the same keys in
/// the same order: a set of keys has one strictly sorted listing.
pub proof fn lemma_strictly_sorted_unique<T: Keyed>(a: Seq<T>, b: Seq<T>)
    requires
        strictly_sorted(a),
        strictly_sorted(b),
        key_set(a) == key_set(b),
    ensures
        keys(a) == keys(b),
    decreases a.len(),
{
    if a.len() == 0 {
        if b.len() > 0 {
            lemma_key_set_contains(b, 0);
        }
        assert(keys(a) =~= keys(b));
    } else {
        lemma_key_set_contains(a, 0);
        lemma_key_set_member(b, a[0].key());
        let k = choose|i: int| 0 <= i < b.len() && b[i].key() == a[0].key();
        lemma_key_set_contains(b, 0);
        lemma_key_set_member(a, b[0].key());
        let m = choose|i: int| 0 <= i < a.len() && a[i].key() == b[0].key();
        T::lemma_key_order(a[0].key(), b[0].key(), a[0].key());
        T::lemma_key_order(b[0].key(), a[0].key(), b[0].key());
        if k > 0 {
            assert(T::key_lt(b[0].key(), b[k].key()));
            if m > 0 {
                assert(T::key_lt(a[0].key(), a[m].key()));
            }
        }
        assert(a[0].key() == b[0].key());
        let a1 = a.drop_first();
        let b1 = b.drop_first();
        assert forall|y: T::K| key_set(a1).contains(y) <==> key_set(b1).contains(y) by {
            if key_set(a1).contains(y) {
                lemma_key_set_member(a1, y);
                let i = choose|i: int| 0 <= i < a1.len() && a1[i].key() == y;
                assert(a1[i] == a[i + 1]);
                lemma_key_set_contains(a, i + 1);
                lemma_key_set_member(b, y);
                let j = choose|j: int| 0 <= j < b.len() && b[j].key() == y;
                assert(T::key_lt(a[0].key(), a[i + 1].key()));
                T::lemma_key_order(y, y, y);
                assert(j != 0);
                assert(b1[j - 1] == b[j]);
                lemma_key_set_contains(b1, j - 1);
            }
            if key_set(b1).contains(y) {
                lemma_key_set_member(b1, y);
                let i = choose|i: int| 0 <= i < b1.len() && b1[i].key() == y;
                assert(b1[i] == b[i + 1]);
                lemma_key_set_contains(b, i + 1);
                lemma_key_set_member(a, y);
                let j = choose|j: int| 0 <= j < a.len() && a[j].key() == y;
                assert(T::key_lt(b[0].key(), b[i + 1].key()));
                T::lemma_key_order(y, y, y);
                assert(j != 0);
                assert(a1[j - 1] == a[j]);
                lemma_key_set_contains(a1, j - 1);
            }
        }
        assert(key_set(a1) =~= key_set(b1));
        assert(strictly_sorted(a1)) by {
            assert forall|i: int, j: int| 0 <= i < j < a1.len() implies T::key_lt(
                #[trigger] a1[i].key(),
                #[trigger] a1[j].key(),
            ) by {
                assert(a1[i] == a[i + 1] && a1[j] == a[j + 1]);
            }
        }
        assert(strictly_sorted(b1)) by {
            assert forall|i: int, j: int| 0 <= i < j < b1.len() implies T::key_lt(
                #[trigger] b1[i].key(),
                #[trigger] b1[j].key(),
            ) by {
                assert(b1[i] == b[i + 1] && b1[j] == b[j + 1]);
            }
        }
        lemma_strictly_sorted_unique(a1, b1);
        assert(keys(a) =~= seq![a[0].key()] + keys(a1));
        assert(keys(b) =~= seq![b[0].key()] + keys(b1));
    }
}

// ---------------------------------------------------------------------------
// Stable sorting
// ---------------------------------------------------------------------------

/// The order "key less than key" on values of a keyed type.
pub open spec fn by_key<T: Keyed>() -> spec_fn(T, T) -> bool {
    |a: T, b: T| T::key_lt(a.key(), b.key())
}

/// `lt` is irreflexive and transitive.
pub open spec fn strict_order<A>(lt: spec_fn(A, A) -> bool) -> bool {
    &&& forall|a: A| !(#[trigger] lt(a, a))
    &&& forall|a: A, b: A, c: A| #[trigger] lt(a, b) && #[trigger] lt(b, c) ==> lt(a, c)
}

/// Where `x` goes among `s`: before the first element above it.
pub open spec fn insert_position<A>(x: A, s: Seq<A>, lt: spec_fn(A, A) -> bool) -> int
    decreases s.len(),
{
    if s.len() == 0 {
        0
    } else if lt(x, s[0]) {
        0
    } else {
        insert_position(x, s.drop_first(), lt) + 1
    }
}

/// `s` with `x` placed after every element not above it.
pub open spec fn insert_in_order<A>(x: A, s: Seq<A>, lt: spec_fn(A, A) -> bool) -> Seq<A> {
    s.insert(insert_position(x, s, lt), x)
}

/// The stable sort of `s` by `lt`: sorted, and elements that `lt` does not
/// tell apart in the order they had in `s`.
pub open spec fn sort_by<A>(s: Seq<A>, lt: spec_fn(A, A) -> bool) -> Seq<A>
    decreases s.len(),
{
    if s.len() == 0 {
        s
    } else {
        insert_in_order(s.last(), sort_by(s.drop_last(), lt), lt)
    }
}

/// No element is above one after it.
pub open spec fn sorted_by<A>(s: Seq<A>, lt: spec_fn(A, A) -> bool) -> bool {
    forall|i: int, j: int| 0 <= i < j < s.len() ==> !lt(#[trigger] s[j], #[trigger] s[i])
}

proof fn lemma_insert_position<A>(x: A, s: Seq<A>, lt: spec_fn(A, A) -> bool)
    ensures
        0 <= insert_position(x, s, lt) <= s.len(),
        forall|i: int| 0 <= i < insert_position(x, s, lt) ==> !lt(x, #[trigger] s[i]),
        insert_position(x, s, lt) < s.len() ==> lt(x, s[insert_position(x, s, lt)]),
    decreases s.len(),
{
    if s.len() > 0 && !lt(x, s[0]) {
        lemma_insert_position(x, s.drop_first(), lt);
        assert forall|i: int| 0 <= i < insert_position(x, s, lt) implies !lt(x, #[trigger] s[i]) by {
            if i > 0 {
                assert(s[i] == s.drop_first()[i - 1]);
            }
        }
    }
}

/// Where `x` goes in `v`, as `insert_position` says.
fn find_insert_position<T: Keyed>(v: &Vec<T>, x: &T) -> (k: usize)
    ensures
        k == insert_position(*x, v@, by_key::<T>()),
        k <= v@.len(),
{
    proof {
        lemma_insert_position(*x, v@, by_key::<T>());
    }
    let mut k: usize = 0;
    assert(v@.skip(0) =~= v@);
    while k < v.len() && !x.key_less(&v[k])
        invariant
            k <= v.len(),
            insert_position(*x, v@, by_key::<T>()) == k + insert_position(
                *x,
                v@.skip(k as int),
                by_key::<T>(),
            ),
        decreases v.len() - k,
    {
        assert(v@.skip(k as int).drop_first() =~= v@.skip(k + 1));
        k += 1;
    }
    k
}

/// Sorts by key, keeping elements with equal keys in the order they came.
pub fn sort_stable<T: Keyed>(v: Vec<T>) -> (r: Vec<T>)
    ensures
        r@ == sort_by(v@, by_key::<T>()),
{
    let ghost orig = v@;
    assert(orig.len() == v.len());
    let mut rest = v;
    let mut out: Vec<T> = Vec::new();
    let mut i: usize = 0;
    assert(orig.take(0) =~= Seq::<T>::empty());
    while rest.len() > 0
        invariant
            i + rest@.len() == orig.len(),
            orig.len() <= usize::MAX,
            rest@ == orig.skip(i as int),
            out@ == sort_by(orig.take(i as int), by_key::<T>()),
        decreases rest.len(),
    {
        let x = rest.remove(0);
        assert(x == orig[i as int]);
        let k = find_insert_position(&out, &x);
        out.insert(k, x);
        i += 1;
        assert(orig.take(i as int).drop_last() =~= orig.take(i - 1));
        assert(rest@ =~= orig.skip(i as int));
    }
    assert(orig.take(i as int) =~= orig);
    out
}

/// A stable sort by a strict order leaves no element above a later one.
pub proof fn lemma_sort_by_sorted<A>(s: Seq<A>, lt: spec_fn(A, A) -> bool)
    requires
        strict_order(lt),
    ensures
        sorted_by(sort_by(s, lt), lt),
    decreases s.len(),
{
    if s.len() > 0 {
        let t = sort_by(s.drop_last(), lt);
        lemma_sort_by_sorted(s.drop_last(), lt);
        let x = s.last();
        lemma_insert_position(x, t, lt);
        let p = insert_position(x, t, lt);
        let n = t.insert(p, x);
        assert forall|i: int, j: int| 0 <= i < j < n.len() implies !lt(
            #[trigger] n[j],
            #[trigger] n[i],
        ) by {
            if j < p {
                assert(n[i] == t[i] && n[j] == t[j]);
            } else if j == p {
                assert(n[i] == t[i]);
            } else if i == p {
                assert(n[j] == t[j - 1]);
                assert(lt(x, t[p]));
                if j - 1 > p {
                    assert(!lt(t[j - 1], t[p]));
                }
                if lt(t[j - 1], x) {
                    assert(lt(t[j - 1], t[p]));
                }
            } else if i < p {
                assert(n[i] == t[i] && n[j] == t[j - 1]);
            } else {
                assert(n[i] == t[i - 1] && n[j] == t[j - 1]);
            }
        }
    }
}

/// A stable sort rearranges its input: same elements, same multiplicities.
pub proof fn lemma_sort_by_permutes<A>(s: Seq<A>, lt: spec_fn(A, A) -> bool)
    ensures
        sort_by(s, lt).to_multiset() == s.to_multiset(),
    decreases s.len(),
{
    broadcast use vstd::seq_lib::group_to_multiset_ensures;

    if s.len() > 0 {
        let t = sort_by(s.drop_last(), lt);
        lemma_sort_by_permutes(s.drop_last(), lt);
        lemma_insert_position(s.last(), t, lt);
        let p = insert_position(s.last(), t, lt);
        vstd::seq_lib::lemma_multiset_commutative(t.take(p), t.skip(p));
        assert(t.take(p) + t.skip(p) =~= t);
        let n = t.insert(p, s.last());
        assert(n =~= t.take(p) + seq![s.last()] + t.skip(p));
        vstd::seq_lib::lemma_multiset_commutative(t.take(p) + seq![s.last()], t.skip(p));
        vstd::seq_lib::lemma_multiset_commutative(t.take(p), seq![s.last()]);
        assert(s =~= s.drop_last().push(s.last()));
    }
}

proof fn lemma_insert_position_map<A, B>(
    x: A,
    s: Seq<A>,
    lt_a: spec_fn(A, A) -> bool,
    f: spec_fn(A) -> B,
    lt_b: spec_fn(B, B) -> bool,
)
    requires
        forall|a: A, b: A| #[trigger] lt_a(a, b) == lt_b(f(a), f(b)),
    ensures
        insert_position(x, s, lt_a) == insert_position(f(x), s.map_values(f), lt_b),
    decreases s.len(),
{
    if s.len() > 0 {
        assert(s.map_values(f).drop_first() =~= s.drop_first().map_values(f));
        assert(lt_a(x, s[0]) == lt_b(f(x), f(s[0])));
        lemma_insert_position_map(x, s.drop_first(), lt_a, f, lt_b);
    }
}

/// Sorting commutes with a map that keeps the order: sorting values by `lt_a`
/// and then mapping them is sorting their images by `lt_b`.
pub proof fn lemma_sort_by_map<A, B>(
    s: Seq<A>,
    lt_a: spec_fn(A, A) -> bool,
    f: spec_fn(A) -> B,
    lt_b: spec_fn(B, B) -> bool,
)
    requires
        forall|a: A, b: A| #[trigger] lt_a(a, b) == lt_b(f(a), f(b)),
    ensures
        sort_by(s, lt_a).map_values(f) == sort_by(s.map_values(f), lt_b),
    decreases s.len(),
{
    if s.len() > 0 {
        let t = sort_by(s.drop_last(), lt_a);
        lemma_sort_by_map(s.drop_last(), lt_a, f, lt_b);
        assert(s.map_values(f).drop_last() =~= s.drop_last().map_values(f));
        lemma_insert_position_map(s.last(), t, lt_a, f, lt_b);
        let p = insert_position(s.last(), t, lt_a);
        lemma_insert_position(s.last(), t, lt_a);
        assert(t.insert(p, s.last()).map_values(f) =~= t.map_values(f).insert(p, f(s.last())));
    }
}

// ---------------------------------------------------------------------------
// Orders of the keys used in this crate
// ---------------------------------------------------------------------------

/// Lexicographic order on characters by code point. This is the order of
/// `String`s: UTF-8 encoding keeps the order of code points.
pub open spec fn chars_lt(a: Seq<char>, b: Seq<char>) -> bool
    decreases a.len(),
{
    if a.len() == 0 {
        b.len() > 0
    } else if b.len() == 0 {
        false
    } else if a[0] != b[0] {
        a[0] < b[0]
    } else {
        chars_lt(a.drop_first(), b.drop_first())
    }
}

pub proof fn lemma_chars_lt_irreflexive(a: Seq<char>)
    ensures
        !chars_lt(a, a),
    decreases a.len(),
{
    if a.len() > 0 {
        lemma_chars_lt_irreflexive(a.drop_first());
    }
}

pub proof fn lemma_chars_lt_transitive(a: Seq<char>, b: Seq<char>, c: Seq<char>)
    requires
        chars_lt(a, b),
        chars_lt(b, c),
    ensures
        chars_lt(a, c),
    decreases a.len(),
{
    if a.len() > 0 && b.len() > 0 && c.len() > 0 && a[0] == b[0] && b[0] == c[0] {
        lemma_chars_lt_transitive(a.drop_first(), b.drop_first(), c.drop_first());
    }
}

pub proof fn lemma_chars_lt_total(a: Seq<char>, b: Seq<char>)
    requires
        a != b,
    ensures
        chars_lt(a, b) || chars_lt(b, a),
    decreases a.len(),
{
    if a.len() == 0 {
        assert(b.len() > 0) by {
            if b.len() == 0 {
                assert(a =~= b);
            }
        }
    } else if b.len() > 0 && a[0] == b[0] {
        if a.drop_first() == b.drop_first() {
            assert(a.drop_first().len() == b.drop_first().len());
            assert(a =~= b) by {
                assert forall|i: int| 0 <= i < a.len() implies a[i] == b[i] by {
                    if i > 0 {
                        assert(a[i] == a.drop_first()[i - 1]);
                        assert(b[i] == b.drop_first()[i - 1]);
                    }
                }
            }
        }
        lemma_chars_lt_total(a.drop_first(), b.drop_first());
    }
}

/// `chars_lt(a, b)`.
pub fn chars_less(a: &Vec<char>, b: &Vec<char>) -> (r: bool)
    ensures
        r == chars_lt(a@, b@),
{
    let mut i: usize = 0;
    assert(a@.skip(0) =~= a@);
    assert(b@.skip(0) =~= b@);
    while i < a.len() && i < b.len() && a[i] == b[i]
        invariant
            i <= a.len(),
            i <= b.len(),
            chars_lt(a@, b@) == chars_lt(a@.skip(i as int), b@.skip(i as int)),
        decreases a.len() - i,
    {
        assert(a@.skip(i as int).drop_first() =~= a@.skip(i + 1));
        assert(b@.skip(i as int).drop_first() =~= b@.skip(i + 1));
        i += 1;
    }
    if i == a.len() {
        i < b.len()
    } else if i == b.len() {
        false
    } else {
        a[i] < b[i]
    }
}

impl Keyed for String {
    type K = Seq<char>;

    open spec fn key(&self) -> Seq<char> {
        self@
    }

    open spec fn key_lt(a: Seq<char>, b: Seq<char>) -> bool {
        chars_lt(a, b)
    }

    proof fn lemma_key_order(a: Seq<char>, b: Seq<char>, c: Seq<char>) {
        lemma_chars_lt_irreflexive(a);
        if chars_lt(a, b) && chars_lt(b, c) {
            lemma_chars_lt_transitive(a, b, c);
        }
        if a != b {
            lemma_chars_lt_total(a, b);
        }
    }

    fn key_less(&self, other: &Self) -> (r: bool) {
        let a = crate::text::chars_of(self.as_str());
        let b = crate::text::chars_of(other.as_str());
        chars_less(&a, &b)
    }
}

impl Keyed for u32 {
    type K = u32;

    open spec fn key(&self) -> u32 {
        *self
    }

    open spec fn key_lt(a: u32, b: u32) -> bool {
        a < b
    }

    proof fn lemma_key_order(a: u32, b: u32, c: u32) {
    }

    fn key_less(&self, other: &Self) -> (r: bool) {
        *self < *other
    }
}

impl Keyed for (u32, u32) {
    type K = (u32, u32);

    open spec fn key(&self) -> (u32, u32) {
        *self
    }

    open spec fn key_lt(a: (u32, u32), b: (u32, u32)) -> bool {
        a.0 < b.0 || (a.0 == b.0 && a.1 < b.1)
    }

    proof fn lemma_key_order(a: (u32, u32), b: (u32, u32), c: (u32, u32)) {
    }

    fn key_less(&self, other: &Self) -> (r: bool) {
        self.0 < other.0 || (self.0 == other.0 && self.1 < other.1)
    }
}

} // verus!
