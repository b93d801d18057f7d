//! Invalidation descriptors: what a formula depends on, read off its
//! expression tree without evaluating it, and which changes reach them.
use vstd::prelude::*;
use crate::address::{CellId, CellView, RangeDescriptor, RangeView, SpillRef, SpillView};

use crate::names::NameId;
use crate::keys::{cell_key, lemma_spill_key_split, lemma_tag_split, lemma_whole_cell_key, lemma_whole_text_key, push_cell_key, push_spill_key, push_word, range_key, spill_key};
use crate::order::{SortKey, key_view, lemma_text_key_split, push_text_key, text_key};
use crate::text::{ascii_upper, ascii_upper_char, push_char, text_equal, to_ascii_upper_char};

verus! {

/// A source of change that is not a cell.
#[derive(Clone, Debug, Eq, PartialEq, Ord, PartialOrd, Hash)]
pub enum EffectKey {
    RecalcEpoch,
    Clock,
    Random,
    DynamicSelector(CellId),
    DynamicTarget(CellId),
    TargetValue(CellId),
    Shape(SpillRef),
    External(String),
    SheetStructure(String),
}

/// The mathematical value of an [`EffectKey`].
pub enum EffectView {
    RecalcEpoch,
    Clock,
    Random,
    DynamicSelector(CellView),
    DynamicTarget(CellView),
    TargetValue(CellView),
    Shape(SpillView),
    External(Seq<char>),
    SheetStructure(Seq<char>),
}

impl View for EffectKey {
    type V = EffectView;

    open spec fn view(&self) -> EffectView {
        match self {
            EffectKey::RecalcEpoch => EffectView::RecalcEpoch,
            EffectKey::Clock => EffectView::Clock,
            EffectKey::Random => EffectView::Random,
            EffectKey::DynamicSelector(c) => EffectView::DynamicSelector(c@),
            EffectKey::DynamicTarget(c) => EffectView::DynamicTarget(c@),
            EffectKey::TargetValue(c) => EffectView::TargetValue(c@),
            EffectKey::Shape(s) => EffectView::Shape(s@),
            EffectKey::External(s) => EffectView::External(s@),
            EffectKey::SheetStructure(s) => EffectView::SheetStructure(s@),
        }
    }
}

/// Something a formula's value may depend on.
#[derive(Clone, Debug, Eq, PartialEq, Ord, PartialOrd, Hash)]
pub enum DependencyDescriptor {
    Cell(CellId),
    Range(RangeDescriptor),
    Name(NameId),
    Selector(CellId),
    SheetStructure(String),
    Shape(SpillRef),
    Effect(EffectKey),
}

/// The descriptors of invalidation.
pub type InvalidationDependency = DependencyDescriptor;

/// The mathematical value of a [`DependencyDescriptor`].
pub enum DependencyView {
    Cell(CellView),
    Range(RangeView),
    Name(u32),
    Selector(CellView),
    SheetStructure(Seq<char>),
    Shape(SpillView),
    Effect(EffectView),
}

impl View for DependencyDescriptor {
    type V = DependencyView;

    open spec fn view(&self) -> DependencyView {
        match self {
            DependencyDescriptor::Cell(c) => DependencyView::Cell(c@),
            DependencyDescriptor::Range(r) => DependencyView::Range(r@),
            DependencyDescriptor::Name(n) => DependencyView::Name(n.0),
            DependencyDescriptor::Selector(c) => DependencyView::Selector(c@),
            DependencyDescriptor::SheetStructure(s) => DependencyView::SheetStructure(s@),
            DependencyDescriptor::Shape(s) => DependencyView::Shape(s@),
            DependencyDescriptor::Effect(e) => DependencyView::Effect(e@),
        }
    }
}

fn spill_same(a: &SpillRef, b: &SpillRef) -> (r: bool)
    ensures
        r == (a@ == b@),
{
    a.rows == b.rows && a.cols == b.cols && a.anchor.same(&b.anchor)
}

impl EffectKey {
    /// Whether both are the same effect.
    pub fn same(&self, other: &EffectKey) -> (r: bool)
        ensures
            r == (self@ == other@),
    {
        match (self, other) {
            (EffectKey::RecalcEpoch, EffectKey::RecalcEpoch) => true,
            (EffectKey::Clock, EffectKey::Clock) => true,
            (EffectKey::Random, EffectKey::Random) => true,
            (EffectKey::DynamicSelector(a), EffectKey::DynamicSelector(b)) => a.same(b),
            (EffectKey::DynamicTarget(a), EffectKey::DynamicTarget(b)) => a.same(b),
            (EffectKey::TargetValue(a), EffectKey::TargetValue(b)) => a.same(b),
            (EffectKey::Shape(a), EffectKey::Shape(b)) => spill_same(a, b),
            (EffectKey::External(a), EffectKey::External(b)) => text_equal(a.as_str(), b.as_str()),
            (EffectKey::SheetStructure(a), EffectKey::SheetStructure(b)) => text_equal(a.as_str(), b.as_str()),
            _ => false,
        }
    }
}

impl DependencyDescriptor {
    /// Whether both are the same descriptor.
    pub fn same(&self, other: &DependencyDescriptor) -> (r: bool)
        ensures
            r == (self@ == other@),
    {
        match (self, other) {
            (DependencyDescriptor::Cell(a), DependencyDescriptor::Cell(b)) => a.same(b),
            (DependencyDescriptor::Range(a), DependencyDescriptor::Range(b)) => a.same(b),
            (DependencyDescriptor::Name(a), DependencyDescriptor::Name(b)) => a.0 == b.0,
            (DependencyDescriptor::Selector(a), DependencyDescriptor::Selector(b)) => a.same(b),
            (DependencyDescriptor::SheetStructure(a), DependencyDescriptor::SheetStructure(b)) => text_equal(
                a.as_str(),
                b.as_str(),
            ),
            (DependencyDescriptor::Shape(a), DependencyDescriptor::Shape(b)) => spill_same(a, b),
            (DependencyDescriptor::Effect(a), DependencyDescriptor::Effect(b)) => a.same(b),
            _ => false,
        }
    }
}

/// The part of a function name after its last '.', so that "_xlfn.SUM" is "SUM".
pub open spec fn after_last_dot(s: Seq<char>) -> Seq<char>
    decreases s.len(),
{
    if s.len() == 0 {
        s
    } else if s.last() == '.' {
        Seq::empty()
    } else {
        after_last_dot(s.drop_last()).push(s.last())
    }
}

/// A function name without prefix, in upper case.
pub open spec fn normalized_function_name(s: Seq<char>) -> Seq<char> {
    ascii_upper(after_last_dot(s))
}

proof fn lemma_after_last_dot(s: Seq<char>, k: int)
    requires
        0 <= k <= s.len(),
        k == 0 || s[k - 1] == '.',
        forall|j: int| k <= j < s.len() ==> s[j] != '.',
    ensures
        after_last_dot(s) == s.subrange(k, s.len() as int),
    decreases s.len(),
{
    if s.len() == 0 {
        assert(s.subrange(k, 0) =~= s);
    } else if s.last() == '.' {
        assert(k == s.len());
        assert(s.subrange(k, s.len() as int) =~= Seq::<char>::empty());
    } else {
        lemma_after_last_dot(s.drop_last(), k);
        assert(s.subrange(k, s.len() as int) =~= s.drop_last().subrange(k, s.len() - 1).push(s.last()));
    }
}

/// The name without any prefix up to a '.', upper-cased.
pub fn normalize_function_name(name: &str) -> (r: String)
    ensures
        r@ == normalized_function_name(name@),
{
    let n = name.unicode_len();
    let mut k = n;
    while k > 0 && name.get_char(k - 1) != '.'
        invariant
            n == name@.len(),
            k <= n,
            forall|j: int| k <= j < n ==> name@[j] != '.',
        decreases k,
    {
        k = k - 1;
    }
    proof {
        lemma_after_last_dot(name@, k as int);
    }
    let mut s = String::new();
    let mut j = k;
    while j < n
        invariant
            n == name@.len(),
            k <= j <= n,
            s@ == ascii_upper(name@.subrange(k as int, j as int)),
        decreases n - j,
    {
        let c = name.get_char(j);
        push_char(&mut s, to_ascii_upper_char(c));
        assert(ascii_upper(name@.subrange(k as int, j + 1)) =~= ascii_upper(name@.subrange(k as int, j as int)).push(ascii_upper_char(c)));
        j = j + 1;
    }
    s
}

/// A change that may invalidate formulas.
#[derive(Clone, Debug, PartialEq, Eq)]
pub enum ChangeEvent {
    Cell(CellId),
    Name(NameId),
    SheetStructure(String),
    Spill(SpillRef),
    Effect(EffectKey),
}

/// The mathematical value of a [`ChangeEvent`].
pub enum ChangeView {
    Cell(CellView),
    Name(u32),
    SheetStructure(Seq<char>),
    Spill(SpillView),
    Effect(EffectView),
}

impl View for ChangeEvent {
    type V = ChangeView;

    open spec fn view(&self) -> ChangeView {
        match self {
            ChangeEvent::Cell(c) => ChangeView::Cell(c@),
            ChangeEvent::Name(n) => ChangeView::Name(n.0),
            ChangeEvent::SheetStructure(s) => ChangeView::SheetStructure(s@),
            ChangeEvent::Spill(s) => ChangeView::Spill(s@),
            ChangeEvent::Effect(e) => ChangeView::Effect(e@),
        }
    }
}

/// Whether a change reaches a descriptor: a cell change reaches the same cell
/// or selector and any range covering it; a name, sheet or spill anchor reaches
/// its own descriptor; any dynamic-selector effect reaches the placeholder
/// selector at row and column 0; other effects reach equal effects.
pub open spec fn matches_event(d: DependencyView, e: ChangeView) -> bool {
    match (d, e) {
        (DependencyView::Cell(a), ChangeView::Cell(b)) => a == b,
        (DependencyView::Selector(a), ChangeView::Cell(b)) => a == b,
        (DependencyView::Range(r), ChangeView::Cell(b)) => crate::address::range_contains(r, b),
        (DependencyView::Name(a), ChangeView::Name(b)) => a == b,
        (DependencyView::SheetStructure(a), ChangeView::SheetStructure(b)) => a == b,
        (DependencyView::Shape(a), ChangeView::Spill(b)) => a.anchor == b.anchor,
        (DependencyView::Effect(a), ChangeView::Effect(b)) => match (a, b) {
            (EffectView::DynamicSelector(s), EffectView::DynamicSelector(_)) => (s.row == 0 && s.col == 0) || a == b,
            _ => a == b,
        },
        _ => false,
    }
}

/// Whether a change touches a dependency (see [`matches_event`]): a cell
/// change touches the cell, a selector of it and every range covering it; a
/// name, sheet structure, spill anchor or effect change touches the same
/// one; a change of any dynamic selector touches the dependency on all of
/// them (the selector written at row 0, column 0).
pub fn dependency_matches_event(dependency: &DependencyDescriptor, event: &ChangeEvent) -> (r: bool)
    ensures
        r == matches_event(dependency@, event@),
{
    match (dependency, event) {
        (DependencyDescriptor::Cell(a), ChangeEvent::Cell(b)) => a.same(b),
        (DependencyDescriptor::Selector(a), ChangeEvent::Cell(b)) => a.same(b),
        (DependencyDescriptor::Range(r), ChangeEvent::Cell(b)) => r.contains(b),
        (DependencyDescriptor::Name(a), ChangeEvent::Name(b)) => a.0 == b.0,
        (DependencyDescriptor::SheetStructure(a), ChangeEvent::SheetStructure(b)) => text_equal(a.as_str(), b.as_str()),
        (DependencyDescriptor::Shape(a), ChangeEvent::Spill(b)) => a.anchor.same(&b.anchor),
        (DependencyDescriptor::Effect(a), ChangeEvent::Effect(b)) => match (a, b) {
            (EffectKey::DynamicSelector(s), EffectKey::DynamicSelector(_)) => (s.row == 0 && s.col == 0) || a.same(b),
            _ => a.same(b),
        },
        _ => false,
    }
}

/// The sort key of an effect: its variant, then its fields.
pub open spec fn effect_key(e: EffectView) -> Seq<int> {
    match e {
        EffectView::RecalcEpoch => seq![0],
        EffectView::Clock => seq![1],
        EffectView::Random => seq![2],
        EffectView::DynamicSelector(c) => seq![3] + cell_key(c),
        EffectView::DynamicTarget(c) => seq![4] + cell_key(c),
        EffectView::TargetValue(c) => seq![5] + cell_key(c),
        EffectView::Shape(s) => seq![6] + spill_key(s),
        EffectView::External(t) => seq![7] + text_key(t),
        EffectView::SheetStructure(t) => seq![8] + text_key(t),
    }
}

/// The sort key of a descriptor: its variant, then its fields. Keys order
/// descriptors as the declaration order of variants and fields does.
pub open spec fn dependency_key(d: DependencyView) -> Seq<int> {
    match d {
        DependencyView::Cell(c) => seq![0] + cell_key(c),
        DependencyView::Range(r) => seq![1] + range_key(r),
        DependencyView::Name(n) => seq![2, n as int],
        DependencyView::Selector(c) => seq![3] + cell_key(c),
        DependencyView::SheetStructure(t) => seq![4] + text_key(t),
        DependencyView::Shape(s) => seq![5] + spill_key(s),
        DependencyView::Effect(e) => seq![6] + effect_key(e),
    }
}

proof fn lemma_effect_key_injective(a: EffectView, b: EffectView)
    requires
        effect_key(a) == effect_key(b),
    ensures
        a == b,
{
    let ka = effect_key(a);
    let kb = effect_key(b);
    assert(ka[0] == kb[0]);
    match (a, b) {
        (EffectView::DynamicSelector(c), EffectView::DynamicSelector(d)) => {
            lemma_tag_split(3, 3, cell_key(c), cell_key(d));
            lemma_whole_cell_key(c, d);
        },
        (EffectView::DynamicTarget(c), EffectView::DynamicTarget(d)) => {
            lemma_tag_split(4, 4, cell_key(c), cell_key(d));
            lemma_whole_cell_key(c, d);
        },
        (EffectView::TargetValue(c), EffectView::TargetValue(d)) => {
            lemma_tag_split(5, 5, cell_key(c), cell_key(d));
            lemma_whole_cell_key(c, d);
        },
        (EffectView::Shape(c), EffectView::Shape(d)) => {
            lemma_tag_split(6, 6, spill_key(c), spill_key(d));
            lemma_spill_key_split(c, d);
        },
        (EffectView::External(c), EffectView::External(d)) => {
            lemma_tag_split(7, 7, text_key(c), text_key(d));
            lemma_whole_text_key(c, d);
        },
        (EffectView::SheetStructure(c), EffectView::SheetStructure(d)) => {
            lemma_tag_split(8, 8, text_key(c), text_key(d));
            lemma_whole_text_key(c, d);
        },
        _ => {},
    }
}

/// Distinct descriptors have distinct keys.
pub proof fn lemma_dependency_key_injective(a: DependencyView, b: DependencyView)
    requires
        dependency_key(a) == dependency_key(b),
    ensures
        a == b,
{
    let ka = dependency_key(a);
    let kb = dependency_key(b);
    assert(ka[0] == kb[0]);
    match (a, b) {
        (DependencyView::Cell(c), DependencyView::Cell(d)) => {
            lemma_tag_split(0, 0, cell_key(c), cell_key(d));
            lemma_whole_cell_key(c, d);
        },
        (DependencyView::Range(c), DependencyView::Range(d)) => {
            lemma_tag_split(1, 1, range_key(c), range_key(d));
            let pc = seq![c.start_row as int, c.start_col as int, c.end_row as int, c.end_col as int];
            let pd = seq![d.start_row as int, d.start_col as int, d.end_row as int, d.end_col as int];
            lemma_text_key_split(c.sheet, d.sheet, pc, pd);
            assert(pc[0] == pd[0] && pc[1] == pd[1] && pc[2] == pd[2] && pc[3] == pd[3]);
        },
        (DependencyView::Name(n), DependencyView::Name(m)) => {
            assert(ka[1] == kb[1]);
        },
        (DependencyView::Selector(c), DependencyView::Selector(d)) => {
            lemma_tag_split(3, 3, cell_key(c), cell_key(d));
            lemma_whole_cell_key(c, d);
        },
        (DependencyView::SheetStructure(c), DependencyView::SheetStructure(d)) => {
            lemma_tag_split(4, 4, text_key(c), text_key(d));
            lemma_whole_text_key(c, d);
        },
        (DependencyView::Shape(c), DependencyView::Shape(d)) => {
            lemma_tag_split(5, 5, spill_key(c), spill_key(d));
            lemma_spill_key_split(c, d);
        },
        (DependencyView::Effect(c), DependencyView::Effect(d)) => {
            lemma_tag_split(6, 6, effect_key(c), effect_key(d));
            lemma_effect_key_injective(c, d);
        },
        _ => {},
    }
}

fn push_effect_key(k: &mut Vec<u64>, e: &EffectKey)
    ensures
        key_view(final(k)@) == key_view(old(k)@) + effect_key(e@),
{
    let ghost start = key_view(k@);
    match e {
        EffectKey::RecalcEpoch => push_word(k, 0),
        EffectKey::Clock => push_word(k, 1),
        EffectKey::Random => push_word(k, 2),
        EffectKey::DynamicSelector(c) => {
            push_word(k, 3);
            push_cell_key(k, c);
        },
        EffectKey::DynamicTarget(c) => {
            push_word(k, 4);
            push_cell_key(k, c);
        },
        EffectKey::TargetValue(c) => {
            push_word(k, 5);
            push_cell_key(k, c);
        },
        EffectKey::Shape(sp) => {
            push_word(k, 6);
            push_spill_key(k, sp);
        },
        EffectKey::External(t) => {
            push_word(k, 7);
            push_text_key(k, t.as_str());
        },
        EffectKey::SheetStructure(t) => {
            push_word(k, 8);
            push_text_key(k, t.as_str());
        },
    }
    assert(key_view(k@) =~= start + effect_key(e@));
}

impl SortKey for DependencyDescriptor {
    open spec fn sort_key(v: DependencyView) -> Seq<int> {
        dependency_key(v)
    }

    proof fn lemma_sort_key_injective(a: DependencyView, b: DependencyView) {
        lemma_dependency_key_injective(a, b);
    }

    fn key_words(&self) -> (k: Vec<u64>) {
        let d = self;
        let mut k: Vec<u64> = Vec::new();
        assert(key_view(k@) =~= Seq::<int>::empty());
        match d {
            DependencyDescriptor::Cell(c) => {
                push_word(&mut k, 0);
                push_cell_key(&mut k, c);
            },
            DependencyDescriptor::Range(r) => {
                push_word(&mut k, 1);
                push_text_key(&mut k, r.sheet.as_str());
                push_word(&mut k, r.start_row as u64);
                push_word(&mut k, r.start_col as u64);
                push_word(&mut k, r.end_row as u64);
                push_word(&mut k, r.end_col as u64);
            },
            DependencyDescriptor::Name(n) => {
                push_word(&mut k, 2);
                push_word(&mut k, n.0 as u64);
            },
            DependencyDescriptor::Selector(c) => {
                push_word(&mut k, 3);
                push_cell_key(&mut k, c);
            },
            DependencyDescriptor::SheetStructure(t) => {
                push_word(&mut k, 4);
                push_text_key(&mut k, t.as_str());
            },
            DependencyDescriptor::Shape(sp) => {
                push_word(&mut k, 5);
                push_spill_key(&mut k, sp);
            },
            DependencyDescriptor::Effect(e) => {
                push_word(&mut k, 6);
                push_effect_key(&mut k, e);
            },
        }
        assert(key_view(k@) =~= dependency_key(d@));
        k
    }
}

impl SortKey for EffectKey {
    open spec fn sort_key(v: EffectView) -> Seq<int> {
        effect_key(v)
    }

    proof fn lemma_sort_key_injective(a: EffectView, b: EffectView) {
        lemma_effect_key_injective(a, b);
    }

    fn key_words(&self) -> (k: Vec<u64>) {
        let mut k: Vec<u64> = Vec::new();
        assert(key_view(k@) =~= Seq::<int>::empty());
        push_effect_key(&mut k, self);
        assert(key_view(k@) =~= effect_key(self@));
        k
    }
}

} // verus!
