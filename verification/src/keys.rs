//! Sort keys of addresses, and the sorted sets of them that traces and
//! indexes keep.
use vstd::prelude::*;
use crate::address::{CellId, CellView, RangeDescriptor, RangeView, ReferenceValue, ReferenceView, SpillRef, SpillView, TableDescriptor, TableView, cell_lt};
use crate::names::NameId;
use crate::text::text_lt;
use crate::order::{SortKey, key_equal, key_less, key_lt, key_view, lemma_key_lt_irrefl, lemma_key_lt_total, lemma_key_lt_trans, lemma_text_key_split, push_text_key, text_key, views};

verus! {

/// The sort key of a cell: sheet, row, column.
pub open spec fn cell_key(c: CellView) -> Seq<int> {
    text_key(c.sheet) + seq![c.row as int, c.col as int]
}

/// The sort key of a range: sheet, then its corners.
pub open spec fn range_key(r: RangeView) -> Seq<int> {
    text_key(r.sheet) + seq![r.start_row as int, r.start_col as int, r.end_row as int, r.end_col as int]
}

/// The sort key of a spill: anchor, then its extent.
pub open spec fn spill_key(s: SpillView) -> Seq<int> {
    cell_key(s.anchor) + seq![s.rows as int, s.cols as int]
}

/// Keys that start with equal-length parts compare by those parts first.
pub proof fn lemma_fixed_split(p: Seq<int>, q: Seq<int>, x: Seq<int>, y: Seq<int>)
    requires
        p.len() == q.len(),
        p + x == q + y,
    ensures
        p == q,
        x == y,
{
    assert(p =~= (p + x).subrange(0, p.len() as int));
    assert(q =~= (q + y).subrange(0, q.len() as int));
    assert(x =~= (p + x).subrange(p.len() as int, (p + x).len() as int));
    assert(y =~= (q + y).subrange(q.len() as int, (q + y).len() as int));
}

/// Cell keys followed by more compare as the cells do, then by what follows.
pub proof fn lemma_cell_key_split(a: CellView, b: CellView, x: Seq<int>, y: Seq<int>)
    requires
        cell_key(a) + x == cell_key(b) + y,
    ensures
        a == b,
        x == y,
{
    let pa = seq![a.row as int, a.col as int];
    let pb = seq![b.row as int, b.col as int];
    assert(cell_key(a) + x =~= text_key(a.sheet) + (pa + x));
    assert(cell_key(b) + y =~= text_key(b.sheet) + (pb + y));
    lemma_text_key_split(a.sheet, b.sheet, pa + x, pb + y);
    lemma_fixed_split(pa, pb, x, y);
    assert(pa[0] == pb[0] && pa[1] == pb[1]);
}

/// Equal spill keys belong to equal spills.
pub proof fn lemma_spill_key_split(a: SpillView, b: SpillView)
    requires
        spill_key(a) == spill_key(b),
    ensures
        a == b,
{
    lemma_cell_key_split(a.anchor, b.anchor, seq![a.rows as int, a.cols as int], seq![b.rows as int, b.cols as int]);
    assert(seq![a.rows as int, a.cols as int][0] == seq![b.rows as int, b.cols as int][0]);
    assert(seq![a.rows as int, a.cols as int][1] == seq![b.rows as int, b.cols as int][1]);
}

/// Equal cell keys belong to equal cells.
pub proof fn lemma_whole_cell_key(a: CellView, b: CellView)
    requires
        cell_key(a) == cell_key(b),
    ensures
        a == b,
{
    assert(cell_key(a) + Seq::<int>::empty() =~= cell_key(a));
    assert(cell_key(b) + Seq::<int>::empty() =~= cell_key(b));
    lemma_cell_key_split(a, b, Seq::empty(), Seq::empty());
}

/// Equal text keys belong to equal texts.
pub proof fn lemma_whole_text_key(a: Seq<char>, b: Seq<char>)
    requires
        text_key(a) == text_key(b),
    ensures
        a == b,
{
    assert(text_key(a) + Seq::<int>::empty() =~= text_key(a));
    assert(text_key(b) + Seq::<int>::empty() =~= text_key(b));
    lemma_text_key_split(a, b, Seq::empty(), Seq::empty());
}

/// Keys that start with different tags compare by the tags.
pub proof fn lemma_tag_split(t: int, u: int, x: Seq<int>, y: Seq<int>)
    requires
        seq![t] + x == seq![u] + y,
    ensures
        t == u,
        x == y,
{
    lemma_fixed_split(seq![t], seq![u], x, y);
    assert(seq![t][0] == seq![u][0]);
}

/// Appends one key word.
pub fn push_word(k: &mut Vec<u64>, v: u64)
    ensures
        key_view(final(k)@) == key_view(old(k)@).push(v as int),
{
    let ghost before = k@;
    k.push(v);
    assert(key_view(k@) =~= key_view(before).push(v as int));
}

/// Appends the key of a cell.
pub fn push_cell_key(k: &mut Vec<u64>, c: &CellId)
    ensures
        key_view(final(k)@) == key_view(old(k)@) + cell_key(c@),
{
    let ghost start = key_view(k@);
    push_text_key(k, c.sheet.as_str());
    push_word(k, c.row as u64);
    push_word(k, c.col as u64);
    assert(key_view(k@) =~= start + cell_key(c@));
}

/// Appends the key of a spill.
pub fn push_spill_key(k: &mut Vec<u64>, s: &SpillRef)
    ensures
        key_view(final(k)@) == key_view(old(k)@) + spill_key(s@),
{
    let ghost start = key_view(k@);
    push_cell_key(k, &s.anchor);
    push_word(k, s.rows as u64);
    push_word(k, s.cols as u64);
    assert(key_view(k@) =~= start + spill_key(s@));
}

/// Equal range keys belong to equal ranges.
pub proof fn lemma_range_key_split(a: RangeView, b: RangeView)
    requires
        range_key(a) == range_key(b),
    ensures
        a == b,
{
    let pa = seq![a.start_row as int, a.start_col as int, a.end_row as int, a.end_col as int];
    let pb = seq![b.start_row as int, b.start_col as int, b.end_row as int, b.end_col as int];
    lemma_text_key_split(a.sheet, b.sheet, pa, pb);
    assert(pa[0] == pb[0] && pa[1] == pb[1] && pa[2] == pb[2] && pa[3] == pb[3]);
}

/// Appends the key of a range.
pub fn push_range_key(k: &mut Vec<u64>, r: &RangeDescriptor)
    ensures
        key_view(final(k)@) == key_view(old(k)@) + range_key(r@),
{
    let ghost start = key_view(k@);
    push_text_key(k, r.sheet.as_str());
    push_word(k, r.start_row as u64);
    push_word(k, r.start_col as u64);
    push_word(k, r.end_row as u64);
    push_word(k, r.end_col as u64);
    assert(key_view(k@) =~= start + range_key(r@));
}

impl SortKey for CellId {
    open spec fn sort_key(v: CellView) -> Seq<int> {
        cell_key(v)
    }

    proof fn lemma_sort_key_injective(a: CellView, b: CellView) {
        lemma_whole_cell_key(a, b);
    }

    fn key_words(&self) -> (k: Vec<u64>) {
        let mut k: Vec<u64> = Vec::new();
        push_cell_key(&mut k, self);
        assert(key_view(k@) =~= cell_key(self@));
        k
    }
}

impl SortKey for RangeDescriptor {
    open spec fn sort_key(v: RangeView) -> Seq<int> {
        range_key(v)
    }

    proof fn lemma_sort_key_injective(a: RangeView, b: RangeView) {
        lemma_range_key_split(a, b);
    }

    fn key_words(&self) -> (k: Vec<u64>) {
        let mut k: Vec<u64> = Vec::new();
        push_range_key(&mut k, self);
        assert(key_view(k@) =~= range_key(self@));
        k
    }
}

impl SortKey for SpillRef {
    open spec fn sort_key(v: SpillView) -> Seq<int> {
        spill_key(v)
    }

    proof fn lemma_sort_key_injective(a: SpillView, b: SpillView) {
        lemma_spill_key_split(a, b);
    }

    fn key_words(&self) -> (k: Vec<u64>) {
        let mut k: Vec<u64> = Vec::new();
        push_spill_key(&mut k, self);
        assert(key_view(k@) =~= spill_key(self@));
        k
    }
}

/// An ordered pair of cells, sorted by the first cell and then the second.
impl SortKey for (CellId, CellId) {
    open spec fn sort_key(v: (CellView, CellView)) -> Seq<int> {
        cell_key(v.0) + cell_key(v.1)
    }

    proof fn lemma_sort_key_injective(a: (CellView, CellView), b: (CellView, CellView)) {
        lemma_cell_key_split(a.0, b.0, cell_key(a.1), cell_key(b.1));
        lemma_whole_cell_key(a.1, b.1);
    }

    fn key_words(&self) -> (k: Vec<u64>) {
        let mut k: Vec<u64> = Vec::new();
        push_cell_key(&mut k, &self.0);
        push_cell_key(&mut k, &self.1);
        assert(key_view(k@) =~= cell_key(self.0@) + cell_key(self.1@));
        k
    }
}

impl SortKey for String {
    open spec fn sort_key(v: Seq<char>) -> Seq<int> {
        text_key(v)
    }

    proof fn lemma_sort_key_injective(a: Seq<char>, b: Seq<char>) {
        lemma_whole_text_key(a, b);
    }

    fn key_words(&self) -> (k: Vec<u64>) {
        let mut k: Vec<u64> = Vec::new();
        push_text_key(&mut k, self.as_str());
        assert(key_view(k@) =~= text_key(self@));
        k
    }
}

/// Items filed under a key: a formula under its address, a spill under its
/// anchor, a count under its range.
pub trait Filed: View + Sized {
    type Key: SortKey;

    spec fn filed_under(v: Self::V) -> <Self::Key as View>::V;

    fn filing_key(&self) -> (k: &Self::Key)
        ensures
            k@ == Self::filed_under(self@),
    ;
}

/// Strictly increasing by the key each item is filed under.
pub open spec fn filed_sorted<T: Filed>(s: Seq<T::V>) -> bool {
    forall|i: int, j: int|
        0 <= i < j < s.len() ==> key_lt(T::Key::sort_key(T::filed_under(s[i])), T::Key::sort_key(T::filed_under(s[j])))
}

/// The index of an item filed under `c`.
pub open spec fn filed_index<T: Filed>(s: Seq<T::V>, c: <T::Key as View>::V) -> int {
    choose|i: int| 0 <= i < s.len() && T::filed_under(s[i]) == c
}

/// The items of a list by the key each is filed under.
pub open spec fn filed_map<T: Filed>(s: Seq<T::V>) -> Map<<T::Key as View>::V, T::V> {
    Map::new(
        |c: <T::Key as View>::V| exists|i: int| 0 <= i < s.len() && T::filed_under(s[i]) == c,
        |c: <T::Key as View>::V| s[filed_index::<T>(s, c)],
    )
}

/// In a list sorted by filing key, one key files one item.
pub proof fn lemma_filed_unique<T: Filed>(s: Seq<T::V>, i: int, j: int)
    requires
        filed_sorted::<T>(s),
        0 <= i < s.len(),
        0 <= j < s.len(),
        T::filed_under(s[i]) == T::filed_under(s[j]),
    ensures
        i == j,
{
    if i < j {
        lemma_key_lt_irrefl(T::Key::sort_key(T::filed_under(s[i])));
    } else if j < i {
        lemma_key_lt_irrefl(T::Key::sort_key(T::filed_under(s[i])));
    }
}

/// Each item of a list sorted by filing key is what the key maps to.
pub proof fn lemma_filed_map_index<T: Filed>(s: Seq<T::V>, i: int)
    requires
        filed_sorted::<T>(s),
        0 <= i < s.len(),
    ensures
        filed_map::<T>(s).contains_key(T::filed_under(s[i])),
        filed_map::<T>(s)[T::filed_under(s[i])] == s[i],
{
    let c = T::filed_under(s[i]);
    assert(filed_map::<T>(s).contains_key(c));
    let j = filed_index::<T>(s, c);
    assert(filed_map::<T>(s)[c] == s[j]);
    lemma_filed_unique::<T>(s, i, j);
}

/// The position of the item filed under `cell`, or where it would go.
fn filed_position<T: Filed>(v: &Vec<T>, cell: &T::Key) -> (r: (bool, usize))
    requires
        filed_sorted::<T>(views(v@)),
    ensures
        r.1 <= v@.len(),
        forall|j: int| 0 <= j < r.1 ==> key_lt(T::Key::sort_key(T::filed_under(#[trigger] v@[j]@)), T::Key::sort_key(cell@)),
        r.0 ==> r.1 < v@.len() && T::filed_under(v@[r.1 as int]@) == cell@,
        !r.0 ==> forall|j: int| r.1 <= j < v@.len() ==> key_lt(T::Key::sort_key(cell@), T::Key::sort_key(T::filed_under(#[trigger] v@[j]@))),
{
    let key = cell.key_words();
    let mut i: usize = 0;
    while i < v.len()
        invariant_except_break
            i <= v@.len(),
            forall|j: int| 0 <= j < i ==> key_lt(T::Key::sort_key(T::filed_under(#[trigger] v@[j]@)), key_view(key@)),
        ensures
            i <= v@.len(),
            forall|j: int| 0 <= j < i ==> key_lt(T::Key::sort_key(T::filed_under(#[trigger] v@[j]@)), key_view(key@)),
            i < v@.len() ==> !key_lt(T::Key::sort_key(T::filed_under(v@[i as int]@)), key_view(key@)),
        decreases v.len() - i,
    {
        let other = v[i].filing_key().key_words();
        if key_less(&other, &key) {
            i = i + 1;
        } else {
            break;
        }
    }
    if i < v.len() {
        let other = v[i].filing_key().key_words();
        if key_equal(&other, &key) {
            proof {
                T::Key::lemma_sort_key_injective(T::filed_under(v@[i as int]@), cell@);
            }
            return (true, i);
        }
        proof {
            let sv = views(v@);
            lemma_key_lt_total(T::Key::sort_key(T::filed_under(v@[i as int]@)), T::Key::sort_key(cell@));
            assert forall|j: int| i <= j < v@.len() implies key_lt(T::Key::sort_key(cell@), T::Key::sort_key(T::filed_under(#[trigger] v@[j]@))) by {
                assert(sv[j] == v@[j]@);
                assert(sv[i as int] == v@[i as int]@);
                if j > i {
                    lemma_key_lt_trans(T::Key::sort_key(cell@), T::Key::sort_key(T::filed_under(v@[i as int]@)), T::Key::sort_key(T::filed_under(v@[j]@)));
                }
            }
        }
    }
    (false, i)
}

/// The index of the item filed under `cell`, if there is one.
pub fn find_filed<T: Filed>(v: &Vec<T>, cell: &T::Key) -> (r: Option<usize>)
    requires
        filed_sorted::<T>(views(v@)),
    ensures
        r matches Some(i) ==> i < v@.len() && T::filed_under(v@[i as int]@) == cell@
            && filed_map::<T>(views(v@)).contains_key(cell@) && filed_map::<T>(views(v@))[cell@] == v@[i as int]@,
        r is None ==> !filed_map::<T>(views(v@)).contains_key(cell@),
{
    let (found, i) = filed_position(v, cell);
    proof {
        let sv = views(v@);
        if found {
            assert(sv[i as int] == v@[i as int]@);
            lemma_filed_map_index::<T>(sv, i as int);
        } else if filed_map::<T>(sv).contains_key(cell@) {
            let j = choose|j: int| 0 <= j < sv.len() && T::filed_under(sv[j]) == cell@;
            assert(sv[j] == v@[j]@);
            lemma_key_lt_irrefl(T::Key::sort_key(cell@));
        }
    }
    if found {
        Some(i)
    } else {
        None
    }
}

/// Files `x` under its cell, replacing the item filed there before.
pub fn file_item<T: Filed>(v: &mut Vec<T>, x: T) -> (replaced: bool)
    requires
        filed_sorted::<T>(views(old(v)@)),
    ensures
        filed_sorted::<T>(views(final(v)@)),
        filed_map::<T>(views(final(v)@)) == filed_map::<T>(views(old(v)@)).insert(T::filed_under(x@), x@),
        replaced == filed_map::<T>(views(old(v)@)).contains_key(T::filed_under(x@)),
        forall|i: int| 0 <= i < final(v)@.len() ==> final(v)@[i] == x || old(v)@.contains(#[trigger] final(v)@[i]),
{
    let ghost ov = views(v@);
    let ghost xv = x@;
    let ghost xc = T::filed_under(xv);
    let (found, i) = filed_position(v, x.filing_key());
    proof {
        assert forall|j: int| 0 <= j < i implies key_lt(T::Key::sort_key(T::filed_under(#[trigger] ov[j])), T::Key::sort_key(xc)) by {
            assert(ov[j] == v@[j]@);
        }
    }
    let ghost ovec = v@;
    if found {
        v.set(i, x);
        assert forall|k: int| 0 <= k < v@.len() implies v@[k] == x || ovec.contains(#[trigger] v@[k]) by {
            if k != i {
                assert(v@[k] == ovec[k]);
            }
        }
        let ghost nv = views(v@);
        assert(nv =~= ov.update(i as int, xv));
        assert(ov[i as int] == old(v)@[i as int]@);
        assert forall|a: int, b: int| 0 <= a < b < nv.len() implies key_lt(
            T::Key::sort_key(T::filed_under(nv[a])),
            T::Key::sort_key(T::filed_under(nv[b])),
        ) by {}
        proof {
            lemma_filed_map_index::<T>(ov, i as int);
            let m1 = filed_map::<T>(nv);
            let m2 = filed_map::<T>(ov).insert(xc, xv);
            assert forall|c: <T::Key as View>::V| m1.contains_key(c) <==> m2.contains_key(c) by {
                if m1.contains_key(c) {
                    let j = choose|j: int| 0 <= j < nv.len() && T::filed_under(nv[j]) == c;
                    if j != i {
                        assert(nv[j] == ov[j]);
                    }
                }
                if m2.contains_key(c) && c != xc {
                    let j = choose|j: int| 0 <= j < ov.len() && T::filed_under(ov[j]) == c;
                    assert(j != i);
                    assert(nv[j] == ov[j]);
                }
                if c == xc {
                    assert(nv[i as int] == xv);
                }
            }
            assert forall|c: <T::Key as View>::V| m1.contains_key(c) implies m1[c] == m2[c] by {
                let j = choose|j: int| 0 <= j < nv.len() && T::filed_under(nv[j]) == c;
                lemma_filed_map_index::<T>(nv, j);
                if j != i {
                    assert(nv[j] == ov[j]);
                    lemma_filed_map_index::<T>(ov, j);
                    if c == xc {
                        lemma_filed_unique::<T>(ov, i as int, j);
                    }
                } else {
                    assert(nv[i as int] == xv);
                }
            }
            assert(m1 =~= m2);
        }
        true
    } else {
        v.insert(i, x);
        assert forall|k: int| 0 <= k < v@.len() implies v@[k] == x || ovec.contains(#[trigger] v@[k]) by {
            if k < i {
                assert(v@[k] == ovec[k]);
            } else if k > i {
                assert(v@[k] == ovec[k - 1]);
            }
        }
        let ghost nv = views(v@);
        assert(nv =~= ov.insert(i as int, xv));
        assert forall|a: int, b: int| 0 <= a < b < nv.len() implies key_lt(
            T::Key::sort_key(T::filed_under(nv[a])),
            T::Key::sort_key(T::filed_under(nv[b])),
        ) by {
            if b < i {
            } else if b == i {
                assert(nv[a] == ov[a]);
            } else if a == i {
                assert(nv[b] == ov[b - 1]);
                assert(ov[b - 1] == old(v)@[b - 1]@);
            } else if a < i {
                assert(nv[b] == ov[b - 1]);
                assert(nv[a] == ov[a]);
            } else {
                assert(nv[b] == ov[b - 1]);
                assert(nv[a] == ov[a - 1]);
            }
        }
        proof {
            let m1 = filed_map::<T>(nv);
            let m2 = filed_map::<T>(ov).insert(xc, xv);
            assert(!filed_map::<T>(ov).contains_key(xc)) by {
                if filed_map::<T>(ov).contains_key(xc) {
                    let j = choose|j: int| 0 <= j < ov.len() && T::filed_under(ov[j]) == xc;
                    assert(ov[j] == old(v)@[j]@);
                    lemma_key_lt_irrefl(T::Key::sort_key(xc));
                }
            }
            assert forall|c: <T::Key as View>::V| m1.contains_key(c) <==> m2.contains_key(c) by {
                if m1.contains_key(c) {
                    let j = choose|j: int| 0 <= j < nv.len() && T::filed_under(nv[j]) == c;
                    if j < i {
                        assert(nv[j] == ov[j]);
                    } else if j > i {
                        assert(nv[j] == ov[j - 1]);
                    }
                }
                if m2.contains_key(c) && c != xc {
                    let j = choose|j: int| 0 <= j < ov.len() && T::filed_under(ov[j]) == c;
                    if j < i {
                        assert(nv[j] == ov[j]);
                    } else {
                        assert(nv[j + 1] == ov[j]);
                    }
                }
                if c == xc {
                    assert(nv[i as int] == xv);
                }
            }
            assert forall|c: <T::Key as View>::V| m1.contains_key(c) implies m1[c] == m2[c] by {
                let j = choose|j: int| 0 <= j < nv.len() && T::filed_under(nv[j]) == c;
                lemma_filed_map_index::<T>(nv, j);
                if j < i {
                    assert(nv[j] == ov[j]);
                    lemma_filed_map_index::<T>(ov, j);
                    assert(c != xc);
                } else if j > i {
                    assert(nv[j] == ov[j - 1]);
                    lemma_filed_map_index::<T>(ov, j - 1);
                    assert(c != xc);
                } else {
                    assert(nv[i as int] == xv);
                }
            }
            assert(m1 =~= m2);
        }
        false
    }
}

/// Removes the item filed under `cell`, if there is one.
pub fn unfile<T: Filed>(v: &mut Vec<T>, cell: &T::Key) -> (removed: Option<T>)
    requires
        filed_sorted::<T>(views(old(v)@)),
    ensures
        filed_sorted::<T>(views(final(v)@)),
        filed_map::<T>(views(final(v)@)) == filed_map::<T>(views(old(v)@)).remove(cell@),
        removed matches Some(x) ==> filed_map::<T>(views(old(v)@)).contains_key(cell@)
            && filed_map::<T>(views(old(v)@))[cell@] == x@,
        removed is None ==> !filed_map::<T>(views(old(v)@)).contains_key(cell@),
        removed matches Some(x) ==> old(v)@.contains(x),
        forall|i: int| 0 <= i < final(v)@.len() ==> old(v)@.contains(#[trigger] final(v)@[i]),
{
    let ghost ov = views(v@);
    match find_filed(v, cell) {
        None => {
            assert(filed_map::<T>(ov).remove(cell@) =~= filed_map::<T>(ov));
            None
        },
        Some(i) => {
            let ghost ovec = v@;
            let x = v.remove(i);
            assert(ovec[i as int] == x);
            assert forall|k: int| 0 <= k < v@.len() implies ovec.contains(#[trigger] v@[k]) by {
                if k < i {
                    assert(v@[k] == ovec[k]);
                } else {
                    assert(v@[k] == ovec[k + 1]);
                }
            }
            let ghost nv = views(v@);
            assert(nv =~= ov.remove(i as int));
            assert forall|a: int, b: int| 0 <= a < b < nv.len() implies key_lt(
                T::Key::sort_key(T::filed_under(nv[a])),
                T::Key::sort_key(T::filed_under(nv[b])),
            ) by {
                if b < i {
                } else if a < i {
                    assert(nv[b] == ov[b + 1]);
                } else {
                    assert(nv[a] == ov[a + 1]);
                    assert(nv[b] == ov[b + 1]);
                }
            }
            proof {
                let m1 = filed_map::<T>(nv);
                let m2 = filed_map::<T>(ov).remove(cell@);
                assert(ov[i as int] == x@);
                assert forall|c: <T::Key as View>::V| m1.contains_key(c) <==> m2.contains_key(c) by {
                    if m1.contains_key(c) {
                        let j = choose|j: int| 0 <= j < nv.len() && T::filed_under(nv[j]) == c;
                        if j < i {
                            assert(nv[j] == ov[j]);
                            if c == cell@ {
                                lemma_filed_unique::<T>(ov, j, i as int);
                            }
                        } else {
                            assert(nv[j] == ov[j + 1]);
                            if c == cell@ {
                                lemma_filed_unique::<T>(ov, j + 1, i as int);
                            }
                        }
                    }
                    if m2.contains_key(c) {
                        let j = choose|j: int| 0 <= j < ov.len() && T::filed_under(ov[j]) == c;
                        assert(j != i);
                        if j < i {
                            assert(nv[j] == ov[j]);
                        } else {
                            assert(nv[j - 1] == ov[j]);
                        }
                    }
                }
                assert forall|c: <T::Key as View>::V| m1.contains_key(c) implies m1[c] == m2[c] by {
                    let j = choose|j: int| 0 <= j < nv.len() && T::filed_under(nv[j]) == c;
                    lemma_filed_map_index::<T>(nv, j);
                    if j < i {
                        assert(nv[j] == ov[j]);
                        lemma_filed_map_index::<T>(ov, j);
                    } else {
                        assert(nv[j] == ov[j + 1]);
                        lemma_filed_map_index::<T>(ov, j + 1);
                    }
                }
                assert(m1 =~= m2);
            }
            Some(x)
        },
    }
}

impl Filed for SpillRef {
    type Key = CellId;

    open spec fn filed_under(v: SpillView) -> CellView {
        v.anchor
    }

    fn filing_key(&self) -> (c: &CellId) {
        &self.anchor
    }
}

/// Text keys order texts as the text order does, and equal texts by what follows.
pub proof fn lemma_text_key_order(s: Seq<char>, t: Seq<char>, x: Seq<int>, y: Seq<int>)
    ensures
        s == t ==> (key_lt(text_key(s) + x, text_key(t) + y) <==> key_lt(x, y)),
        s != t ==> (key_lt(text_key(s) + x, text_key(t) + y) <==> text_lt(s, t)),
    decreases s.len(),
{
    let l = text_key(s) + x;
    let r = text_key(t) + y;
    if s.len() == 0 && t.len() == 0 {
        assert(s =~= t);
        assert(l[0] == 0 && r[0] == 0);
        assert(l.drop_first() =~= x);
        assert(r.drop_first() =~= y);
    } else if s.len() == 0 {
        assert(l[0] == 0);
        assert(text_key(t)[0] == (t[0] as u32) as int + 1);
        assert(r[0] == (t[0] as u32) as int + 1);
    } else if t.len() == 0 {
        assert(r[0] == 0);
        assert(text_key(s)[0] == (s[0] as u32) as int + 1);
        assert(l[0] == (s[0] as u32) as int + 1);
    } else {
        assert(text_key(s)[0] == (s[0] as u32) as int + 1);
        assert(text_key(t)[0] == (t[0] as u32) as int + 1);
        assert(l[0] == (s[0] as u32) as int + 1);
        assert(r[0] == (t[0] as u32) as int + 1);
        if s[0] == t[0] {
            assert(text_key(s.drop_first()) + x =~= l.drop_first());
            assert(text_key(t.drop_first()) + y =~= r.drop_first());
            lemma_text_key_order(s.drop_first(), t.drop_first(), x, y);
            if s.drop_first() == t.drop_first() {
                assert(s =~= seq![s[0]] + s.drop_first());
                assert(t =~= seq![t[0]] + t.drop_first());
            }
        } else {
            vstd::utf8::char_u32_cast(s[0], s[0] as u32);
            vstd::utf8::char_u32_cast(t[0], t[0] as u32);
        }
    }
}

/// Cell keys order cells as the cell order does.
pub proof fn lemma_cell_key_order(a: CellView, b: CellView)
    ensures
        key_lt(cell_key(a), cell_key(b)) <==> cell_lt(a, b),
{
    let pa = seq![a.row as int, a.col as int];
    let pb = seq![b.row as int, b.col as int];
    lemma_text_key_order(a.sheet, b.sheet, pa, pb);
    crate::text::lemma_text_lt_irrefl(a.sheet);
    assert(cell_key(a) == text_key(a.sheet) + pa);
    assert(cell_key(b) == text_key(b.sheet) + pb);
    assert(pa.drop_first() =~= seq![a.col as int]);
    assert(pb.drop_first() =~= seq![b.col as int]);
    assert(pa.drop_first().drop_first() =~= Seq::<int>::empty());
    assert(pb.drop_first().drop_first() =~= Seq::<int>::empty());
    assert(!key_lt(Seq::<int>::empty(), Seq::<int>::empty()));
    assert(seq![a.col as int].drop_first() =~= Seq::<int>::empty());
    assert(seq![b.col as int].drop_first() =~= Seq::<int>::empty());
    assert(key_lt(seq![a.col as int], seq![b.col as int]) == (a.col < b.col));
    assert(key_lt(pa, pb) == (a.row < b.row || (a.row == b.row && a.col < b.col)));
}

/// Range keys followed by more compare as the ranges do, then by what follows.
pub proof fn lemma_range_key_split_with(a: RangeView, b: RangeView, x: Seq<int>, y: Seq<int>)
    requires
        range_key(a) + x == range_key(b) + y,
    ensures
        a == b,
        x == y,
{
    let pa = seq![a.start_row as int, a.start_col as int, a.end_row as int, a.end_col as int];
    let pb = seq![b.start_row as int, b.start_col as int, b.end_row as int, b.end_col as int];
    assert(range_key(a) + x =~= text_key(a.sheet) + (pa + x));
    assert(range_key(b) + y =~= text_key(b.sheet) + (pb + y));
    lemma_text_key_split(a.sheet, b.sheet, pa + x, pb + y);
    lemma_fixed_split(pa, pb, x, y);
    assert(pa[0] == pb[0] && pa[1] == pb[1] && pa[2] == pb[2] && pa[3] == pb[3]);
}

/// Equal spill keys belong to equal spills.
pub proof fn lemma_spill_key_split_with(a: SpillView, b: SpillView, x: Seq<int>, y: Seq<int>)
    requires
        spill_key(a) + x == spill_key(b) + y,
    ensures
        a == b,
        x == y,
{
    let pa = seq![a.rows as int, a.cols as int];
    let pb = seq![b.rows as int, b.cols as int];
    assert(spill_key(a) + x =~= cell_key(a.anchor) + (pa + x));
    assert(spill_key(b) + y =~= cell_key(b.anchor) + (pb + y));
    lemma_cell_key_split(a.anchor, b.anchor, pa + x, pb + y);
    lemma_fixed_split(pa, pb, x, y);
    assert(pa[0] == pb[0] && pa[1] == pb[1]);
}

/// The sort key of a table: name, range, generation.
pub open spec fn table_key(t: TableView) -> Seq<int> {
    text_key(t.name) + range_key(t.range) + seq![t.generation as int]
}

/// Table keys followed by more compare as the tables do, then by what follows.
pub proof fn lemma_table_key_split_with(a: TableView, b: TableView, x: Seq<int>, y: Seq<int>)
    requires
        table_key(a) + x == table_key(b) + y,
    ensures
        a == b,
        x == y,
{
    let ga = seq![a.generation as int];
    let gb = seq![b.generation as int];
    assert(table_key(a) + x =~= text_key(a.name) + (range_key(a.range) + (ga + x)));
    assert(table_key(b) + y =~= text_key(b.name) + (range_key(b.range) + (gb + y)));
    lemma_text_key_split(a.name, b.name, range_key(a.range) + (ga + x), range_key(b.range) + (gb + y));
    lemma_range_key_split_with(a.range, b.range, ga + x, gb + y);
    lemma_fixed_split(ga, gb, x, y);
    assert(ga[0] == gb[0]);
}

/// The sort key of a reference: its kind, then its fields.
pub open spec fn reference_key(r: ReferenceView) -> Seq<int> {
    match r {
        ReferenceView::Cell(c) => seq![0] + cell_key(c),
        ReferenceView::Range(g) => seq![1] + range_key(g),
        ReferenceView::Spill(s) => seq![2] + spill_key(s),
        ReferenceView::Table(t) => seq![3] + table_key(t),
    }
}

/// Reference keys followed by more compare as the references do, then by what follows.
pub proof fn lemma_reference_key_split_with(a: ReferenceView, b: ReferenceView, x: Seq<int>, y: Seq<int>)
    requires
        reference_key(a) + x == reference_key(b) + y,
    ensures
        a == b,
        x == y,
{
    let ka = reference_key(a) + x;
    let kb = reference_key(b) + y;
    assert(ka[0] == kb[0]);
    match (a, b) {
        (ReferenceView::Cell(c), ReferenceView::Cell(d)) => {
            assert(ka =~= seq![0] + (cell_key(c) + x));
            assert(kb =~= seq![0] + (cell_key(d) + y));
            lemma_tag_split(0, 0, cell_key(c) + x, cell_key(d) + y);
            lemma_cell_key_split(c, d, x, y);
        },
        (ReferenceView::Range(c), ReferenceView::Range(d)) => {
            assert(ka =~= seq![1] + (range_key(c) + x));
            assert(kb =~= seq![1] + (range_key(d) + y));
            lemma_tag_split(1, 1, range_key(c) + x, range_key(d) + y);
            lemma_range_key_split_with(c, d, x, y);
        },
        (ReferenceView::Spill(c), ReferenceView::Spill(d)) => {
            assert(ka =~= seq![2] + (spill_key(c) + x));
            assert(kb =~= seq![2] + (spill_key(d) + y));
            lemma_tag_split(2, 2, spill_key(c) + x, spill_key(d) + y);
            lemma_spill_key_split_with(c, d, x, y);
        },
        (ReferenceView::Table(c), ReferenceView::Table(d)) => {
            assert(ka =~= seq![3] + (table_key(c) + x));
            assert(kb =~= seq![3] + (table_key(d) + y));
            lemma_tag_split(3, 3, table_key(c) + x, table_key(d) + y);
            lemma_table_key_split_with(c, d, x, y);
        },
        _ => {},
    }
}

/// Appends the key of a table.
pub fn push_table_key(k: &mut Vec<u64>, t: &TableDescriptor)
    ensures
        key_view(final(k)@) == key_view(old(k)@) + table_key(t@),
{
    let ghost start = key_view(k@);
    push_text_key(k, t.name.as_str());
    push_range_key(k, &t.range);
    push_word(k, t.generation);
    assert(key_view(k@) =~= start + table_key(t@));
}

/// Appends the key of a reference.
pub fn push_reference_key(k: &mut Vec<u64>, r: &ReferenceValue)
    ensures
        key_view(final(k)@) == key_view(old(k)@) + reference_key(r@),
{
    let ghost start = key_view(k@);
    match r {
        ReferenceValue::Cell(c) => {
            push_word(k, 0);
            push_cell_key(k, c);
        },
        ReferenceValue::Range(g) => {
            push_word(k, 1);
            push_range_key(k, g);
        },
        ReferenceValue::Spill(s) => {
            push_word(k, 2);
            push_spill_key(k, s);
        },
        ReferenceValue::Table(t) => {
            push_word(k, 3);
            push_table_key(k, t);
        },
    }
    assert(key_view(k@) =~= start + reference_key(r@));
}

impl SortKey for ReferenceValue {
    open spec fn sort_key(v: ReferenceView) -> Seq<int> {
        reference_key(v)
    }

    proof fn lemma_sort_key_injective(a: ReferenceView, b: ReferenceView) {
        assert(reference_key(a) + Seq::<int>::empty() =~= reference_key(a));
        assert(reference_key(b) + Seq::<int>::empty() =~= reference_key(b));
        lemma_reference_key_split_with(a, b, Seq::empty(), Seq::empty());
    }

    fn key_words(&self) -> (k: Vec<u64>) {
        let mut k: Vec<u64> = Vec::new();
        assert(key_view(k@) =~= Seq::<int>::empty());
        push_reference_key(&mut k, self);
        assert(key_view(k@) =~= reference_key(self@));
        k
    }
}

impl SortKey for NameId {
    open spec fn sort_key(v: NameId) -> Seq<int> {
        seq![v.0 as int]
    }

    proof fn lemma_sort_key_injective(a: NameId, b: NameId) {
        assert(seq![a.0 as int][0] == seq![b.0 as int][0]);
    }

    fn key_words(&self) -> (k: Vec<u64>) {
        let mut k: Vec<u64> = Vec::new();
        assert(key_view(k@) =~= Seq::<int>::empty());
        push_word(&mut k, self.0 as u64);
        assert(key_view(k@) =~= seq![self.0 as int]);
        k
    }
}

} // verus!
