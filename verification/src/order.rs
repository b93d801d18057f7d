//! Sort keys: values are encoded as integer sequences whose lexicographic
//! order is the order of the values themselves, texts first by character
//! code and then by length.
use vstd::prelude::*;

verus! {

/// Strict lexicographic order on integer sequences (a proper prefix sorts first).
pub open spec fn key_lt(a: Seq<int>, b: Seq<int>) -> bool
    decreases a.len(),
{
    if a.len() == 0 {
        b.len() > 0
    } else if b.len() == 0 {
        false
    } else if a[0] != b[0] {
        a[0] < b[0]
    } else {
        key_lt(a.drop_first(), b.drop_first())
    }
}

/// No key sorts before itself.
pub proof fn lemma_key_lt_irrefl(a: Seq<int>)
    ensures
        !key_lt(a, a),
    decreases a.len(),
{
    if a.len() > 0 {
        lemma_key_lt_irrefl(a.drop_first());
    }
}

/// The key order is transitive.
pub proof fn lemma_key_lt_trans(a: Seq<int>, b: Seq<int>, c: Seq<int>)
    requires
        key_lt(a, b),
        key_lt(b, c),
    ensures
        key_lt(a, c),
    decreases a.len(),
{
    if a.len() > 0 && b.len() > 0 && c.len() > 0 && a[0] == b[0] && b[0] == c[0] {
        lemma_key_lt_trans(a.drop_first(), b.drop_first(), c.drop_first());
    }
}

/// Of two different keys, one sorts before the other.
pub proof fn lemma_key_lt_total(a: Seq<int>, b: Seq<int>)
    ensures
        a == b || key_lt(a, b) || key_lt(b, a),
    decreases a.len(),
{
    if a.len() > 0 && b.len() > 0 && a[0] == b[0] {
        lemma_key_lt_total(a.drop_first(), b.drop_first());
        if a.drop_first() == b.drop_first() {
            assert(a =~= seq![a[0]] + a.drop_first());
            assert(b =~= seq![b[0]] + b.drop_first());
        }
    } else if a.len() == 0 && b.len() == 0 {
        assert(a =~= b);
    }
}

/// Two keys never sort before each other.
pub proof fn lemma_key_lt_asym(a: Seq<int>, b: Seq<int>)
    requires
        key_lt(a, b),
    ensures
        !key_lt(b, a),
{
    if key_lt(b, a) {
        lemma_key_lt_trans(a, b, a);
        lemma_key_lt_irrefl(a);
    }
}

/// The key of a text: each character code plus one, then a closing zero, so
/// that a text sorts before any longer text it begins.
pub open spec fn text_key(s: Seq<char>) -> Seq<int> {
    s.map_values(|c: char| (c as u32) as int + 1).push(0)
}

/// A text key followed by anything determines both the text and what follows.
pub proof fn lemma_text_key_split(s: Seq<char>, t: Seq<char>, x: Seq<int>, y: Seq<int>)
    requires
        text_key(s) + x == text_key(t) + y,
    ensures
        s == t,
        x == y,
    decreases s.len(),
{
    let l = text_key(s) + x;
    let r = text_key(t) + y;
    assert(l == r);
    if s.len() == 0 {
        assert(l[0] == 0);
        if t.len() > 0 {
            assert(text_key(t)[0] == (t[0] as u32) as int + 1);
            assert(r[0] == (t[0] as u32) as int + 1);
            assert(false);
        }
        assert(s =~= t);
        assert(x =~= l.drop_first());
        assert(y =~= r.drop_first());
    } else {
        assert(text_key(s)[0] == (s[0] as u32) as int + 1);
        assert(l[0] == (s[0] as u32) as int + 1);
        if t.len() == 0 {
            assert(r[0] == 0);
            assert(false);
        }
        assert(text_key(t)[0] == (t[0] as u32) as int + 1);
        assert(r[0] == (t[0] as u32) as int + 1);
        vstd::utf8::char_u32_cast(s[0], s[0] as u32);
        vstd::utf8::char_u32_cast(t[0], t[0] as u32);
        assert(s[0] == t[0]);
        assert(text_key(s.drop_first()) + x =~= l.drop_first());
        assert(text_key(t.drop_first()) + y =~= r.drop_first());
        lemma_text_key_split(s.drop_first(), t.drop_first(), x, y);
        assert(s =~= seq![s[0]] + s.drop_first());
        assert(t =~= seq![t[0]] + t.drop_first());
    }
}

/// The integers of a key held in machine words.
pub open spec fn key_view(k: Seq<u64>) -> Seq<int> {
    k.map_values(|x: u64| x as int)
}

/// Appends the key of a text.
pub fn push_text_key(k: &mut Vec<u64>, s: &str)
    ensures
        key_view(final(k)@) == key_view(old(k)@) + text_key(s@),
{
    let n = s.unicode_len();
    let ghost start = key_view(k@);
    let mut i: usize = 0;
    while i < n
        invariant
            n == s@.len(),
            i <= n,
            key_view(k@) == start + s@.subrange(0, i as int).map_values(|c: char| (c as u32) as int + 1),
        decreases n - i,
    {
        let c = s.get_char(i);
        let v: u64 = (c as u32) as u64 + 1;
        let ghost before = k@;
        k.push(v);
        assert(key_view(k@) =~= key_view(before).push(v as int));
        assert(s@.subrange(0, i + 1).map_values(|c: char| (c as u32) as int + 1) =~= s@.subrange(
            0,
            i as int,
        ).map_values(|c: char| (c as u32) as int + 1).push((c as u32) as int + 1));
        i = i + 1;
    }
    let ghost before = k@;
    k.push(0);
    assert(s@.subrange(0, n as int) =~= s@);
    assert(key_view(k@) =~= key_view(before).push(0));
    assert(key_view(k@) =~= start + text_key(s@));
}

/// Whether key `a` sorts strictly before key `b`.
pub fn key_less(a: &Vec<u64>, b: &Vec<u64>) -> (r: bool)
    ensures
        r == key_lt(key_view(a@), key_view(b@)),
{
    let n = a.len();
    let m = b.len();
    let mut i: usize = 0;
    assert(key_view(a@).skip(0) =~= key_view(a@));
    assert(key_view(b@).skip(0) =~= key_view(b@));
    while i < n && i < m
        invariant
            n == a@.len(),
            m == b@.len(),
            i <= n,
            i <= m,
            key_lt(key_view(a@), key_view(b@)) == key_lt(
                key_view(a@).skip(i as int),
                key_view(b@).skip(i as int),
            ),
        decreases n - i,
    {
        let x = a[i];
        let y = b[i];
        assert(key_view(a@).skip(i as int)[0] == x as int);
        assert(key_view(b@).skip(i as int)[0] == y as int);
        if x != y {
            return x < y;
        }
        assert(key_view(a@).skip(i as int).drop_first() =~= key_view(a@).skip(i + 1));
        assert(key_view(b@).skip(i as int).drop_first() =~= key_view(b@).skip(i + 1));
        i = i + 1;
    }
    i < m && i == n
}

/// Whether two keys are equal.
pub fn key_equal(a: &Vec<u64>, b: &Vec<u64>) -> (r: bool)
    ensures
        r == (key_view(a@) == key_view(b@)),
{
    if a.len() != b.len() {
        assert(key_view(a@).len() != key_view(b@).len());
        return false;
    }
    let mut i: usize = 0;
    while i < a.len()
        invariant
            a@.len() == b@.len(),
            i <= a@.len(),
            forall|j: int| 0 <= j < i ==> a@[j] == b@[j],
        decreases a.len() - i,
    {
        if a[i] != b[i] {
            assert(key_view(a@)[i as int] != key_view(b@)[i as int]);
            return false;
        }
        i = i + 1;
    }
    assert(key_view(a@) =~= key_view(b@));
    true
}

/// Values with a sort key: an integer sequence that determines the value.
pub trait SortKey: View + Sized {
    spec fn sort_key(v: Self::V) -> Seq<int>;

    proof fn lemma_sort_key_injective(a: Self::V, b: Self::V)
        requires
            Self::sort_key(a) == Self::sort_key(b),
        ensures
            a == b,
    ;

    fn key_words(&self) -> (k: Vec<u64>)
        ensures
            key_view(k@) == Self::sort_key(self@),
    ;
}

/// The values of a sequence of items.
pub open spec fn views<T: View>(s: Seq<T>) -> Seq<T::V> {
    s.map_values(|x: T| x@)
}

/// Strictly increasing by sort key: sorted, and nothing twice.
pub open spec fn sorted_by_key<T: SortKey>(s: Seq<T::V>) -> bool {
    forall|i: int, j: int| 0 <= i < j < s.len() ==> key_lt(T::sort_key(s[i]), T::sort_key(s[j]))
}

/// The set of values a list holds.
pub open spec fn value_set<T: View>(s: Seq<T>) -> Set<T::V> {
    views(s).to_set()
}

/// The position at which `x` is or would be in a sorted list: every item
/// before it sorts before `x`, and the item there, if any, does not.
pub fn sorted_position<T: SortKey>(v: &Vec<T>, key: &Vec<u64>) -> (i: usize)
    ensures
        i <= v@.len(),
        forall|j: int| 0 <= j < i ==> key_lt(T::sort_key(#[trigger] v@[j]@), key_view(key@)),
        i < v@.len() ==> !key_lt(T::sort_key(v@[i as int]@), key_view(key@)),
{
    let mut i: usize = 0;
    while i < v.len()
        invariant_except_break
            i <= v@.len(),
            forall|j: int| 0 <= j < i ==> key_lt(T::sort_key(#[trigger] v@[j]@), key_view(key@)),
        ensures
            i <= v@.len(),
            forall|j: int| 0 <= j < i ==> key_lt(T::sort_key(#[trigger] v@[j]@), key_view(key@)),
            i < v@.len() ==> !key_lt(T::sort_key(v@[i as int]@), key_view(key@)),
        decreases v.len() - i,
    {
        let other = v[i].key_words();
        if key_less(&other, key) {
            i = i + 1;
        } else {
            break;
        }
    }
    i
}

/// Whether a sorted list holds `x`.
pub fn sorted_contains<T: SortKey>(v: &Vec<T>, x: &T) -> (r: bool)
    requires
        sorted_by_key::<T>(views(v@)),
    ensures
        r == value_set(v@).contains(x@),
{
    let key = x.key_words();
    let i = sorted_position(v, &key);
    if i < v.len() {
        let other = v[i].key_words();
        if key_equal(&other, &key) {
            proof {
                T::lemma_sort_key_injective(v@[i as int]@, x@);
                assert(views(v@)[i as int] == x@);
            }
            return true;
        }
    }
    proof {
        if value_set(v@).contains(x@) {
            let k = choose|k: int| 0 <= k < views(v@).len() && views(v@)[k] == x@;
            if k < i {
                lemma_key_lt_irrefl(T::sort_key(x@));
            } else if k == i {
            } else {
                assert(key_lt(T::sort_key(views(v@)[i as int]), T::sort_key(views(v@)[k])));
                lemma_key_lt_total(T::sort_key(v@[i as int]@), T::sort_key(x@));
                lemma_key_lt_asym(T::sort_key(v@[i as int]@), T::sort_key(x@));
            }
        }
    }
    false
}

/// Adds `x` to a sorted list unless it is there already; says whether it was added.
pub fn insert_sorted<T: SortKey>(out: &mut Vec<T>, x: T) -> (added: bool)
    requires
        sorted_by_key::<T>(views(old(out)@)),
    ensures
        sorted_by_key::<T>(views(final(out)@)),
        value_set(final(out)@) == value_set(old(out)@).insert(x@),
        added == !value_set(old(out)@).contains(x@),
        final(out)@.len() == old(out)@.len() + (if added { 1int } else { 0int }),
{
    let ghost old_view = views(out@);
    let key = x.key_words();
    let i = sorted_position(out, &key);
    if i < out.len() {
        let other = out[i].key_words();
        if key_equal(&other, &key) {
            proof {
                T::lemma_sort_key_injective(out@[i as int]@, x@);
                assert(old_view[i as int] == x@);
                assert(old_view.to_set().insert(x@) =~= old_view.to_set());
            }
            return false;
        }
    }
    proof {
        if i < out.len() {
            let o = out@[i as int]@;
            lemma_key_lt_total(T::sort_key(o), T::sort_key(x@));
        }
    }
    let ghost xv = x@;
    out.insert(i, x);
    let ghost nv = views(out@);
    assert(nv =~= old_view.insert(i as int, xv));
    assert forall|a: int, b: int| 0 <= a < b < nv.len() implies key_lt(
        T::sort_key(nv[a]),
        T::sort_key(nv[b]),
    ) by {
        if b < i {
        } else if b == i {
            assert(nv[a] == old_view[a]);
        } else if a == i {
            assert(nv[b] == old_view[b - 1]);
            if b - 1 > i {
                lemma_key_lt_trans(T::sort_key(xv), T::sort_key(old_view[i as int]), T::sort_key(old_view[b - 1]));
            }
        } else if a < i {
            assert(nv[b] == old_view[b - 1]);
            assert(nv[a] == old_view[a]);
        } else {
            assert(nv[b] == old_view[b - 1]);
            assert(nv[a] == old_view[a - 1]);
        }
    }
    assert forall|y: T::V| nv.to_set().contains(y) <==> old_view.to_set().insert(xv).contains(y) by {
        if nv.to_set().contains(y) {
            let k = choose|k: int| 0 <= k < nv.len() && nv[k] == y;
            if k < i {
                assert(old_view[k] == y);
            } else if k > i {
                assert(old_view[k - 1] == y);
            }
        }
        if old_view.to_set().contains(y) {
            let k = choose|k: int| 0 <= k < old_view.len() && old_view[k] == y;
            if k < i {
                assert(nv[k] == y);
            } else {
                assert(nv[k + 1] == y);
            }
        }
        if y == xv {
            assert(nv[i as int] == y);
        }
    }
    assert(nv.to_set() =~= old_view.to_set().insert(xv));
    proof {
        if old_view.to_set().contains(xv) {
            let k = choose|k: int| 0 <= k < old_view.len() && old_view[k] == xv;
            if k < i {
                lemma_key_lt_irrefl(T::sort_key(xv));
            } else {
                if k > i {
                    assert(key_lt(T::sort_key(old_view[i as int]), T::sort_key(old_view[k])));
                    lemma_key_lt_asym(T::sort_key(old_view[i as int]), T::sort_key(xv));
                }
                lemma_key_lt_irrefl(T::sort_key(xv));
            }
        }
    }
    true
}

/// A strictly sorted list holds as many values as it has items.
pub proof fn lemma_sorted_set_len<T: SortKey>(s: Seq<T::V>)
    requires
        sorted_by_key::<T>(s),
    ensures
        s.to_set().len() == s.len(),
        s.no_duplicates(),
{
    assert forall|i: int, j: int| 0 <= i < s.len() && 0 <= j < s.len() && i != j implies s[i] != s[j] by {
        if s[i] == s[j] {
            lemma_key_lt_irrefl(T::sort_key(s[i]));
        }
    }
    s.unique_seq_to_set();
}

/// A strictly sorted list of values drawn from `u` is no longer than `u`.
pub proof fn lemma_sorted_within<T: SortKey>(s: Seq<T::V>, u: Seq<T::V>)
    requires
        sorted_by_key::<T>(s),
        forall|x: T::V| s.contains(x) ==> u.contains(x),
    ensures
        s.len() <= u.len(),
{
    lemma_sorted_set_len::<T>(s);
    assert(s.to_set().subset_of(u.to_set()));
    u.lemma_cardinality_of_set();
    vstd::set_lib::lemma_len_subset(s.to_set(), u.to_set());
}

/// Removes `x` from a sorted list, if it is there; says whether it was.
pub fn remove_sorted<T: SortKey>(v: &mut Vec<T>, x: &T) -> (removed: bool)
    requires
        sorted_by_key::<T>(views(old(v)@)),
    ensures
        sorted_by_key::<T>(views(final(v)@)),
        value_set(final(v)@) == value_set(old(v)@).remove(x@),
        removed == value_set(old(v)@).contains(x@),
{
    let ghost ov = views(v@);
    let key = x.key_words();
    let i = sorted_position(v, &key);
    if i < v.len() {
        let other = v[i].key_words();
        if key_equal(&other, &key) {
            proof {
                T::lemma_sort_key_injective(v@[i as int]@, x@);
            }
            v.remove(i);
            let ghost nv = views(v@);
            assert(nv =~= ov.remove(i as int));
            assert forall|a: int, b: int| 0 <= a < b < nv.len() implies key_lt(T::sort_key(nv[a]), T::sort_key(nv[b])) by {
                if b < i {
                } else if a < i {
                    assert(nv[b] == ov[b + 1]);
                } else {
                    assert(nv[a] == ov[a + 1]);
                    assert(nv[b] == ov[b + 1]);
                }
            }
            assert forall|y: T::V| nv.to_set().contains(y) <==> ov.to_set().remove(x@).contains(y) by {
                if nv.to_set().contains(y) {
                    let k = choose|k: int| 0 <= k < nv.len() && nv[k] == y;
                    assert(ov[i as int] == x@);
                    if k < i {
                        assert(ov[k] == y);
                        if y == x@ {
                            assert(key_lt(T::sort_key(ov[k]), T::sort_key(ov[i as int])));
                            lemma_key_lt_irrefl(T::sort_key(x@));
                        }
                    } else {
                        assert(ov[k + 1] == y);
                        if y == x@ {
                            assert(key_lt(T::sort_key(ov[i as int]), T::sort_key(ov[k + 1])));
                            lemma_key_lt_irrefl(T::sort_key(x@));
                        }
                    }
                }
                if ov.to_set().remove(x@).contains(y) {
                    let k = choose|k: int| 0 <= k < ov.len() && ov[k] == y;
                    assert(k != i);
                    if k < i {
                        assert(nv[k] == y);
                    } else {
                        assert(nv[k - 1] == y);
                    }
                }
            }
            assert(nv.to_set() =~= ov.to_set().remove(x@));
            assert(ov[i as int] == x@);
            return true;
        }
    }
    proof {
        if ov.to_set().contains(x@) {
            let k = choose|k: int| 0 <= k < ov.len() && ov[k] == x@;
            if k < i {
                lemma_key_lt_irrefl(T::sort_key(x@));
            } else if k > i {
                lemma_key_lt_total(T::sort_key(ov[i as int]), T::sort_key(x@));
                assert(key_lt(T::sort_key(ov[i as int]), T::sort_key(ov[k])));
                lemma_key_lt_asym(T::sort_key(ov[i as int]), T::sort_key(x@));
            } else {
                assert(ov[i as int] == v@[i as int]@);
            }
        }
        assert(ov.to_set().remove(x@) =~= ov.to_set());
    }
    false
}

/// Two strictly sorted lists with the same values are the same list.
pub proof fn lemma_sorted_lists_equal<T: SortKey>(a: Seq<T::V>, b: Seq<T::V>)
    requires
        sorted_by_key::<T>(a),
        sorted_by_key::<T>(b),
        a.to_set() == b.to_set(),
    ensures
        a == b,
    decreases a.len(),
{
    if a.len() == 0 {
        if b.len() > 0 {
            assert(b.to_set().contains(b[0]));
        }
        assert(a =~= b);
    } else {
        assert(a.to_set().contains(a[0]));
        assert(b.len() > 0);
        assert(b.to_set().contains(b[0]));
        let j = choose|j: int| 0 <= j < b.len() && b[j] == a[0];
        let i = choose|i: int| 0 <= i < a.len() && a[i] == b[0];
        if j > 0 {
            assert(key_lt(T::sort_key(b[0]), T::sort_key(b[j])));
            if i > 0 {
                assert(key_lt(T::sort_key(a[0]), T::sort_key(a[i])));
                lemma_key_lt_trans(T::sort_key(b[0]), T::sort_key(a[0]), T::sort_key(b[0]));
            }
            lemma_key_lt_irrefl(T::sort_key(b[0]));
        }
        assert(a[0] == b[0]);
        let a1 = a.drop_first();
        let b1 = b.drop_first();
        lemma_sorted_set_len::<T>(a);
        lemma_sorted_set_len::<T>(b);
        assert forall|x: T::V| a1.to_set().contains(x) <==> b1.to_set().contains(x) by {
            if a1.to_set().contains(x) {
                let k = choose|k: int| 0 <= k < a1.len() && a1[k] == x;
                assert(a[k + 1] == x);
                assert(b.to_set().contains(x));
                let m = choose|m: int| 0 <= m < b.len() && b[m] == x;
                if m == 0 {
                    assert(a[0] == a[k + 1]);
                }
                assert(b1[m - 1] == x);
            }
            if b1.to_set().contains(x) {
                let k = choose|k: int| 0 <= k < b1.len() && b1[k] == x;
                assert(b[k + 1] == x);
                assert(a.to_set().contains(x));
                let m = choose|m: int| 0 <= m < a.len() && a[m] == x;
                if m == 0 {
                    assert(b[0] == b[k + 1]);
                }
                assert(a1[m - 1] == x);
            }
        }
        assert(a1.to_set() =~= b1.to_set());
        lemma_sorted_lists_equal::<T>(a1, b1);
        assert(a =~= seq![a[0]] + a1);
        assert(b =~= seq![b[0]] + b1);
    }
}

/// The strictly sorted list of the values of a finite set.
pub open spec fn sorted_list<T: SortKey>(s: Set<T::V>) -> Seq<T::V> {
    choose|l: Seq<T::V>| sorted_by_key::<T>(l) && l.to_set() == s
}

/// A strictly sorted list is the sorted list of its values.
pub proof fn lemma_is_sorted_list<T: SortKey>(l: Seq<T::V>)
    requires
        sorted_by_key::<T>(l),
    ensures
        l == sorted_list::<T>(l.to_set()),
{
    let s = l.to_set();
    assert(exists|m: Seq<T::V>| sorted_by_key::<T>(m) && m.to_set() == s);
    let m = sorted_list::<T>(s);
    lemma_sorted_lists_equal::<T>(l, m);
}

} // verus!
