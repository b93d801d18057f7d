//! Comparing computed values with a workbook's cached values: each formula
//! cell is put in a class (match, mismatch, or which side holds an error),
//! and the classes, value transitions, per-sheet classes and computed errors
//! are counted, with the first few cells of each non-matching class kept as
//! examples.
use vstd::prelude::*;
use crate::analysis::{count_map, increment};
use crate::keys::{Filed, file_item, filed_map, filed_sorted, unfile};
use crate::order::views;
use crate::text::{push_str, string_of};
use crate::trace::seconds;

verus! {

/// How a computed value compares with the cached one.
#[derive(Clone, Copy, Debug, PartialEq, Eq)]
pub enum CompatibilityClass {
    Match,
    ValueMismatch,
    SameError,
    DifferentErrorKind,
    FormualizerOnlyError,
    ExcelErrorFormualizerValue,
}

/// The class of a cell from the two sides' error texts (if any) and whether
/// the two values agree.
pub open spec fn class_of(source_error: Option<Seq<char>>, computed_error: Option<Seq<char>>, values_match: bool) -> CompatibilityClass {
    match (source_error, computed_error) {
        (Some(s), Some(c)) => if s == c {
            CompatibilityClass::SameError
        } else {
            CompatibilityClass::DifferentErrorKind
        },
        (None, Some(_)) => CompatibilityClass::FormualizerOnlyError,
        (Some(_), None) => CompatibilityClass::ExcelErrorFormualizerValue,
        (None, None) => if values_match {
            CompatibilityClass::Match
        } else {
            CompatibilityClass::ValueMismatch
        },
    }
}

/// The name a class is counted under.
pub open spec fn class_label(c: CompatibilityClass) -> Seq<char> {
    match c {
        CompatibilityClass::Match => "match"@,
        CompatibilityClass::ValueMismatch => "value_mismatch"@,
        CompatibilityClass::SameError => "same_error"@,
        CompatibilityClass::DifferentErrorKind => "different_error_kind"@,
        CompatibilityClass::FormualizerOnlyError => "formualizer_only_error"@,
        CompatibilityClass::ExcelErrorFormualizerValue => "excel_error_formualizer_value"@,
    }
}

/// The position of a class among the six.
pub open spec fn class_index(c: CompatibilityClass) -> int {
    match c {
        CompatibilityClass::Match => 0,
        CompatibilityClass::ValueMismatch => 1,
        CompatibilityClass::SameError => 2,
        CompatibilityClass::DifferentErrorKind => 3,
        CompatibilityClass::FormualizerOnlyError => 4,
        CompatibilityClass::ExcelErrorFormualizerValue => 5,
    }
}

impl CompatibilityClass {
    /// The name the class is counted under.
    pub fn label(&self) -> (r: String)
        ensures
            r@ == class_label(*self),
    {
        match self {
            CompatibilityClass::Match => string_of("match"),
            CompatibilityClass::ValueMismatch => string_of("value_mismatch"),
            CompatibilityClass::SameError => string_of("same_error"),
            CompatibilityClass::DifferentErrorKind => string_of("different_error_kind"),
            CompatibilityClass::FormualizerOnlyError => string_of("formualizer_only_error"),
            CompatibilityClass::ExcelErrorFormualizerValue => string_of("excel_error_formualizer_value"),
        }
    }

    fn index(&self) -> (r: usize)
        ensures
            r == class_index(*self),
    {
        match self {
            CompatibilityClass::Match => 0,
            CompatibilityClass::ValueMismatch => 1,
            CompatibilityClass::SameError => 2,
            CompatibilityClass::DifferentErrorKind => 3,
            CompatibilityClass::FormualizerOnlyError => 4,
            CompatibilityClass::ExcelErrorFormualizerValue => 5,
        }
    }
}

/// The text of an optional string.
pub open spec fn opt_text(o: Option<String>) -> Option<Seq<char>> {
    match o {
        Some(s) => Some(s@),
        None => None,
    }
}

/// Classifies a cell: equal error texts are the same error, different ones a
/// different error kind, an error on one side only is named by the side that
/// has it, and two values match or mismatch as `values_match` says.
pub fn classify_values(source_error: &Option<String>, computed_error: &Option<String>, values_match: bool) -> (r:
    CompatibilityClass)
    ensures
        r == class_of(opt_text(*source_error), opt_text(*computed_error), values_match),
{
    match (source_error, computed_error) {
        (Some(s), Some(c)) => if *s == *c {
            CompatibilityClass::SameError
        } else {
            CompatibilityClass::DifferentErrorKind
        },
        (None, Some(_)) => CompatibilityClass::FormualizerOnlyError,
        (Some(_), None) => CompatibilityClass::ExcelErrorFormualizerValue,
        (None, None) => if values_match {
            CompatibilityClass::Match
        } else {
            CompatibilityClass::ValueMismatch
        },
    }
}


/// How many times `k` occurs in `keys`.
pub open spec fn occurrences(keys: Seq<Seq<char>>, k: Seq<char>) -> nat
    decreases keys.len(),
{
    if keys.len() == 0 {
        0
    } else {
        occurrences(keys.drop_last(), k) + if keys.last() == k {
            1nat
        } else {
            0nat
        }
    }
}

/// Each key of a list with the number of times it occurs.
pub open spec fn key_counts(keys: Seq<Seq<char>>) -> Map<Seq<char>, u64> {
    Map::new(|k: Seq<char>| keys.contains(k), |k: Seq<char>| occurrences(keys, k) as u64)
}

proof fn lemma_occurrences_bounds(keys: Seq<Seq<char>>, k: Seq<char>)
    ensures
        occurrences(keys, k) <= keys.len(),
        !keys.contains(k) ==> occurrences(keys, k) == 0,
    decreases keys.len(),
{
    if keys.len() > 0 {
        lemma_occurrences_bounds(keys.drop_last(), k);
        if !keys.contains(k) {
            assert forall|j: int| 0 <= j < keys.drop_last().len() implies keys.drop_last()[j] != k by {
                assert(keys[j] == keys.drop_last()[j]);
            }
            assert(keys[keys.len() - 1] == keys.last());
        }
    }
}

/// Counting one more key: a new key counts 1, a known one one more.
proof fn lemma_key_counts_push(keys: Seq<Seq<char>>, k: Seq<char>)
    requires
        keys.len() < u64::MAX,
    ensures
        key_counts(keys.push(k)) == key_counts(keys).insert(
            k,
            if key_counts(keys).contains_key(k) {
                (key_counts(keys)[k] + 1) as u64
            } else {
                1u64
            },
        ),
        key_counts(keys).contains_key(k) ==> key_counts(keys)[k] < u64::MAX,
{
    let p = keys.push(k);
    assert(p.drop_last() =~= keys);
    assert(p.last() == k);
    lemma_occurrences_bounds(keys, k);
    assert forall|k2: Seq<char>| #[trigger] p.contains(k2) <==> keys.contains(k2) || k2 == k by {
        if keys.contains(k2) {
            let j = choose|j: int| 0 <= j < keys.len() && keys[j] == k2;
            assert(p[j] == k2);
        }
        if p.contains(k2) && k2 != k {
            let j = choose|j: int| 0 <= j < p.len() && p[j] == k2;
            assert(j < keys.len());
            assert(keys[j] == k2);
        }
        if k2 == k {
            assert(p[keys.len() as int] == k);
        }
    }
    assert forall|k2: Seq<char>| k2 != k implies occurrences(p, k2) == occurrences(keys, k2) by {
        assert(p.drop_last() == keys);
    }
    assert(occurrences(p, k) == occurrences(keys, k) + 1);
    assert(key_counts(p) =~= key_counts(keys).insert(
        k,
        if key_counts(keys).contains_key(k) {
            (key_counts(keys)[k] + 1) as u64
        } else {
            1u64
        },
    ));
}


/// One compared formula cell: its sheet, each side's value kind and error
/// text (if it holds an error), and whether the two values agree (as judged
/// by the caller; read only when neither side holds an error).
pub struct ComparedCell {
    pub sheet: String,
    pub source_kind: String,
    pub source_error: Option<String>,
    pub computed_kind: String,
    pub computed_error: Option<String>,
    pub values_match: bool,
}

/// The mathematical value of a [`ComparedCell`].
pub struct ComparedView {
    pub sheet: Seq<char>,
    pub source_kind: Seq<char>,
    pub source_error: Option<Seq<char>>,
    pub computed_kind: Seq<char>,
    pub computed_error: Option<Seq<char>>,
    pub values_match: bool,
}

impl View for ComparedCell {
    type V = ComparedView;

    open spec fn view(&self) -> ComparedView {
        ComparedView {
            sheet: self.sheet@,
            source_kind: self.source_kind@,
            source_error: opt_text(self.source_error),
            computed_kind: self.computed_kind@,
            computed_error: opt_text(self.computed_error),
            values_match: self.values_match,
        }
    }
}

/// The class of a compared cell.
pub open spec fn cell_class(c: ComparedView) -> CompatibilityClass {
    class_of(c.source_error, c.computed_error, c.values_match)
}

/// How a value is named in a transition: its error text, else its kind.
pub open spec fn transition_label(kind: Seq<char>, error: Option<Seq<char>>) -> Seq<char> {
    match error {
        Some(e) => e,
        None => kind,
    }
}

/// The transition a cell shows, from the cached to the computed value.
pub open spec fn transition_key(c: ComparedView) -> Seq<char> {
    transition_label(c.source_kind, c.source_error) + " -> "@ + transition_label(c.computed_kind, c.computed_error)
}

/// The class names of the cells, in order.
pub open spec fn class_keys(cells: Seq<ComparedView>) -> Seq<Seq<char>> {
    cells.map_values(|c: ComparedView| class_label(cell_class(c)))
}

/// The transitions of the cells, in order.
pub open spec fn transition_keys(cells: Seq<ComparedView>) -> Seq<Seq<char>> {
    cells.map_values(|c: ComparedView| transition_key(c))
}

/// The sheets of the cells, in order.
pub open spec fn sheets(cells: Seq<ComparedView>) -> Seq<Seq<char>> {
    cells.map_values(|c: ComparedView| c.sheet)
}

/// The computed error texts, in order, of the cells whose computed value is an error.
pub open spec fn error_keys(cells: Seq<ComparedView>) -> Seq<Seq<char>>
    decreases cells.len(),
{
    if cells.len() == 0 {
        Seq::empty()
    } else {
        let p = error_keys(cells.drop_last());
        match cells.last().computed_error {
            Some(e) => p.push(e),
            None => p,
        }
    }
}

/// The class names, in order, of the cells on `sheet`.
pub open spec fn sheet_class_keys(cells: Seq<ComparedView>, sheet: Seq<char>) -> Seq<Seq<char>>
    decreases cells.len(),
{
    if cells.len() == 0 {
        Seq::empty()
    } else {
        let p = sheet_class_keys(cells.drop_last(), sheet);
        if cells.last().sheet == sheet {
            p.push(class_label(cell_class(cells.last())))
        } else {
            p
        }
    }
}

/// How many of the cells are in class `class`.
pub open spec fn class_occurrences(cells: Seq<ComparedView>, class: CompatibilityClass) -> nat
    decreases cells.len(),
{
    if cells.len() == 0 {
        0
    } else {
        class_occurrences(cells.drop_last(), class) + if cell_class(cells.last()) == class {
            1nat
        } else {
            0nat
        }
    }
}

/// Whether cell `i` is kept as an example: it does not match, and fewer than
/// `max` earlier cells are in its class.
pub open spec fn is_example(cells: Seq<ComparedView>, i: int, max: usize) -> bool {
    cell_class(cells[i]) != CompatibilityClass::Match && class_occurrences(cells.take(i), cell_class(cells[i])) < max
}

/// How many of the first `n` cells are kept as examples of `class`.
pub open spec fn examples_of(cells: Seq<ComparedView>, n: nat, max: usize, class: CompatibilityClass) -> nat
    decreases n,
{
    if n == 0 {
        0
    } else {
        examples_of(cells, (n - 1) as nat, max, class) + if is_example(cells, n - 1, max) && cell_class(cells[n - 1])
            == class {
            1nat
        } else {
            0nat
        }
    }
}

/// A sheet's class counts filed under the sheet.
impl Filed for (String, Vec<(String, u64)>) {
    type Key = String;

    open spec fn filed_under(v: (Seq<char>, Seq<(String, u64)>)) -> Seq<char> {
        v.0
    }

    fn filing_key(&self) -> (k: &String) {
        &self.0
    }
}

/// The counts of a comparison.
pub struct CompatibilityTally {
    pub classes: Vec<(String, u64)>,
    pub transitions: Vec<(String, u64)>,
    pub by_sheet: Vec<(String, Vec<(String, u64)>)>,
    pub formualizer_errors: Vec<(String, u64)>,
    /// For each cell, whether it is kept as an example of its class.
    pub examples: Vec<bool>,
}

impl CompatibilityTally {
    /// Every list of counts is sorted by its label, the sheets by name.
    pub open spec fn wf(&self) -> bool {
        &&& filed_sorted::<(String, u64)>(views(self.classes@))
        &&& filed_sorted::<(String, u64)>(views(self.transitions@))
        &&& filed_sorted::<(String, u64)>(views(self.formualizer_errors@))
        &&& filed_sorted::<(String, Vec<(String, u64)>)>(views(self.by_sheet@))
        &&& forall|i: int|
            0 <= i < self.by_sheet@.len() ==> filed_sorted::<(String, u64)>(views(#[trigger] self.by_sheet@[i].1@))
    }

    /// The class counts of each sheet.
    pub open spec fn sheet_counts(&self) -> Map<Seq<char>, Map<Seq<char>, u64>> {
        seconds(filed_map::<(String, Vec<(String, u64)>)>(views(self.by_sheet@))).map_values(
            |v: Seq<(String, u64)>| count_map(v),
        )
    }
}

proof fn lemma_push_keys(cells: Seq<ComparedView>, c: ComparedView, s: Seq<char>)
    ensures
        class_keys(cells.push(c)) == class_keys(cells).push(class_label(cell_class(c))),
        transition_keys(cells.push(c)) == transition_keys(cells).push(transition_key(c)),
        sheets(cells.push(c)) == sheets(cells).push(c.sheet),
        error_keys(cells.push(c)) == match c.computed_error {
            Some(e) => error_keys(cells).push(e),
            None => error_keys(cells),
        },
        sheet_class_keys(cells.push(c), s) == if c.sheet == s {
            sheet_class_keys(cells, s).push(class_label(cell_class(c)))
        } else {
            sheet_class_keys(cells, s)
        },
        class_occurrences(cells.push(c), cell_class(c)) == class_occurrences(cells, cell_class(c)) + 1,
        forall|k: CompatibilityClass| k != cell_class(c) ==> class_occurrences(cells.push(c), k) == class_occurrences(cells, k),
{
    let p = cells.push(c);
    assert(p.drop_last() =~= cells);
    assert(class_keys(p) =~= class_keys(cells).push(class_label(cell_class(c))));
    assert(transition_keys(p) =~= transition_keys(cells).push(transition_key(c)));
    assert(sheets(p) =~= sheets(cells).push(c.sheet));
}

/// A sheet has class counts exactly when some cell is on it.
proof fn lemma_sheet_keys_nonempty(cells: Seq<ComparedView>, s: Seq<char>)
    ensures
        sheet_class_keys(cells, s).len() > 0 <==> sheets(cells).contains(s),
    decreases cells.len(),
{
    if cells.len() > 0 {
        let q = cells.drop_last();
        lemma_sheet_keys_nonempty(q, s);
        assert(cells =~= q.push(cells.last()));
        lemma_push_keys(q, cells.last(), s);
        if sheets(q).contains(s) {
            let j = choose|j: int| 0 <= j < sheets(q).len() && sheets(q)[j] == s;
            assert(sheets(cells)[j] == s);
        }
        if sheets(cells).contains(s) && cells.last().sheet != s {
            let j = choose|j: int| 0 <= j < sheets(cells).len() && sheets(cells)[j] == s;
            assert(j < q.len());
            assert(sheets(q)[j] == s);
        }
        if cells.last().sheet == s {
            assert(sheets(cells)[cells.len() - 1] == s);
        }
    }
}

fn transition_text(kind: &String, error: &Option<String>) -> (r: String)
    ensures
        r@ == transition_label(kind@, opt_text(*error)),
{
    match error {
        Some(e) => e.clone(),
        None => kind.clone(),
    }
}


/// Counts the classes, transitions ("cached -> computed"), classes per sheet
/// and computed error texts of the compared cells, and marks each cell that
/// is kept as an example: the first `max_examples_per_class` cells of each
/// class other than a match.
pub fn tally_comparisons(cells: &Vec<ComparedCell>, max_examples_per_class: usize) -> (r: CompatibilityTally)
    ensures
        r.wf(),
        count_map(r.classes@) == key_counts(class_keys(views(cells@))),
        count_map(r.transitions@) == key_counts(transition_keys(views(cells@))),
        count_map(r.formualizer_errors@) == key_counts(error_keys(views(cells@))),
        forall|s: Seq<char>| #[trigger] r.sheet_counts().contains_key(s) <==> sheets(views(cells@)).contains(s),
        forall|s: Seq<char>| #[trigger]
            r.sheet_counts().contains_key(s) ==> r.sheet_counts()[s] == key_counts(sheet_class_keys(views(cells@), s)),
        r.examples@.len() == cells@.len(),
        forall|i: int| 0 <= i < cells@.len() ==> #[trigger] r.examples@[i] == is_example(views(cells@), i, max_examples_per_class),
{
    let ghost v = views(cells@);
    let mut t = CompatibilityTally {
        classes: Vec::new(),
        transitions: Vec::new(),
        by_sheet: Vec::new(),
        formualizer_errors: Vec::new(),
        examples: Vec::new(),
    };
    let mut seen: Vec<usize> = vec![0, 0, 0, 0, 0, 0];
    proof {
        assert(v.take(0) =~= Seq::<ComparedView>::empty());
        assert(count_map(t.classes@) =~= key_counts(class_keys(v.take(0))));
        assert(count_map(t.transitions@) =~= key_counts(transition_keys(v.take(0))));
        assert(count_map(t.formualizer_errors@) =~= key_counts(error_keys(v.take(0))));
        assert(t.sheet_counts() =~= Map::empty());
    }
    let mut i: usize = 0;
    while i < cells.len()
        invariant
            i <= cells@.len(),
            v == views(cells@),
            t.wf(),
            count_map(t.classes@) == key_counts(class_keys(v.take(i as int))),
            count_map(t.transitions@) == key_counts(transition_keys(v.take(i as int))),
            count_map(t.formualizer_errors@) == key_counts(error_keys(v.take(i as int))),
            forall|s: Seq<char>| #[trigger]
                t.sheet_counts().contains_key(s) <==> sheet_class_keys(v.take(i as int), s).len() > 0,
            forall|s: Seq<char>| #[trigger]
                t.sheet_counts().contains_key(s) ==> t.sheet_counts()[s] == key_counts(sheet_class_keys(v.take(i as int), s)),
            t.examples@.len() == i,
            forall|j: int| 0 <= j < i ==> #[trigger] t.examples@[j] == is_example(v, j, max_examples_per_class),
            seen@.len() == 6,
            forall|k: CompatibilityClass| #[trigger] seen@[class_index(k)] == class_occurrences(v.take(i as int), k),
        decreases cells@.len() - i,
    {
        let c = &cells[i];
        let ghost cv = c@;
        let ghost pre = v.take(i as int);
        let ghost t0 = t.sheet_counts();
        proof {
            assert(v.take(i + 1) =~= pre.push(cv));
            assert(cv == v[i as int]);
            lemma_push_keys(pre, cv, cv.sheet);
            lemma_key_lens(pre, cv.sheet);
            assert(usize::MAX <= u64::MAX);
        }
        let class = classify_values(&c.source_error, &c.computed_error, c.values_match);
        let label = class.label();
        proof {
            lemma_key_counts_push(class_keys(pre), class_label(cell_class(cv)));
        }
        increment(&mut t.classes, label.as_str());
        let mut key = transition_text(&c.source_kind, &c.source_error);
        push_str(&mut key, " -> ");
        let computed = transition_text(&c.computed_kind, &c.computed_error);
        push_str(&mut key, computed.as_str());
        proof {
            lemma_key_counts_push(transition_keys(pre), transition_key(cv));
        }
        increment(&mut t.transitions, key.as_str());
        match &c.computed_error {
            Some(e) => {
                proof {
                    lemma_key_counts_push(error_keys(pre), e@);
                }
                increment(&mut t.formualizer_errors, e.as_str());
            },
            None => {},
        }
        let ghost before_sheets = t.by_sheet@;
        let ghost fm0 = filed_map::<(String, Vec<(String, u64)>)>(views(t.by_sheet@));
        proof {
            assert(t0 == seconds(fm0).map_values(|w: Seq<(String, u64)>| count_map(w)));
        }
        let removed = unfile(&mut t.by_sheet, &c.sheet);
        let mut inner: Vec<(String, u64)> = match removed {
            Some(entry) => {
                proof {
                    let j = choose|j: int| 0 <= j < before_sheets.len() && before_sheets[j] == entry;
                    assert(filed_sorted::<(String, u64)>(views(before_sheets[j].1@)));
                    assert(fm0.contains_key(cv.sheet) && fm0[cv.sheet] == entry@);
                    assert(t0.contains_key(cv.sheet));
                    assert(t0[cv.sheet] == count_map(entry.1@));
                }
                entry.1
            },
            None => {
                proof {
                    assert(!t0.contains_key(cv.sheet));
                    assert(sheet_class_keys(pre, cv.sheet) =~= Seq::<Seq<char>>::empty());
                    assert(count_map(Seq::<(String, u64)>::empty()) =~= Map::<Seq<char>, u64>::empty());
                    assert(key_counts(Seq::<Seq<char>>::empty()) =~= Map::<Seq<char>, u64>::empty());
                }
                Vec::new()
            },
        };
        proof {
            assert(count_map(inner@) == key_counts(sheet_class_keys(pre, cv.sheet)));
            lemma_key_counts_push(sheet_class_keys(pre, cv.sheet), class_label(cell_class(cv)));
        }
        increment(&mut inner, label.as_str());
        let ghost mid_sheets = t.by_sheet@;
        let sheet = c.sheet.clone();
        let ghost entry = (sheet, inner);
        file_item(&mut t.by_sheet, (sheet, inner));
        proof {
            let fm2 = filed_map::<(String, Vec<(String, u64)>)>(views(t.by_sheet@));
            assert(fm2 == fm0.remove(cv.sheet).insert(cv.sheet, entry@));
            assert(t.sheet_counts() =~= t0.insert(cv.sheet, count_map(inner@)));
            assert forall|j: int| 0 <= j < t.by_sheet@.len() implies filed_sorted::<(String, u64)>(
                views(#[trigger] t.by_sheet@[j].1@),
            ) by {
                if t.by_sheet@[j] != entry {
                    let m = choose|m: int| 0 <= m < mid_sheets.len() && mid_sheets[m] == t.by_sheet@[j];
                    let n = choose|n: int| 0 <= n < before_sheets.len() && before_sheets[n] == mid_sheets[m];
                    assert(filed_sorted::<(String, u64)>(views(before_sheets[n].1@)));
                }
            }
            assert forall|s: Seq<char>| #[trigger] t.sheet_counts().contains_key(s) <==> sheet_class_keys(
                v.take(i + 1),
                s,
            ).len() > 0 by {
                lemma_push_keys(pre, cv, s);
                if s != cv.sheet {
                    assert(t0.contains_key(s) <==> sheet_class_keys(pre, s).len() > 0);
                }
            }
            assert forall|s: Seq<char>| #[trigger] t.sheet_counts().contains_key(s) implies t.sheet_counts()[s]
                == key_counts(sheet_class_keys(v.take(i + 1), s)) by {
                lemma_push_keys(pre, cv, s);
                if s != cv.sheet {
                    assert(t0.contains_key(s));
                    assert(t0[s] == key_counts(sheet_class_keys(pre, s)));
                }
            }
        }
        let k = class.index();
        let example = !matches!(class, CompatibilityClass::Match) && seen[k] < max_examples_per_class;
        t.examples.push(example);
        proof {
            assert(v.take(i as int) == pre);
            assert(class_occurrences(pre, cell_class(cv)) <= i) by {
                lemma_class_occurrences_bound(pre, cell_class(cv));
            }
        }
        let next = seen[k] + 1;
        seen.set(k, next);
        proof {
            assert forall|kk: CompatibilityClass| #[trigger] seen@[class_index(kk)] == class_occurrences(
                v.take(i + 1),
                kk,
            ) by {
                lemma_push_keys(pre, cv, cv.sheet);
                if kk != cell_class(cv) {
                    assert(class_index(kk) != class_index(cell_class(cv)));
                }
            }
        }
        i = i + 1;
    }
    proof {
        assert(v.take(cells@.len() as int) =~= v);
        assert forall|s: Seq<char>| #[trigger] t.sheet_counts().contains_key(s) <==> sheets(v).contains(s) by {
            lemma_sheet_keys_nonempty(v, s);
        }
    }
    t
}

proof fn lemma_key_lens(cells: Seq<ComparedView>, s: Seq<char>)
    ensures
        error_keys(cells).len() <= cells.len(),
        sheet_class_keys(cells, s).len() <= cells.len(),
        class_keys(cells).len() == cells.len(),
        transition_keys(cells).len() == cells.len(),
    decreases cells.len(),
{
    if cells.len() > 0 {
        lemma_key_lens(cells.drop_last(), s);
    }
}

proof fn lemma_class_occurrences_bound(cells: Seq<ComparedView>, k: CompatibilityClass)
    ensures
        class_occurrences(cells, k) <= cells.len(),
    decreases cells.len(),
{
    if cells.len() > 0 {
        lemma_class_occurrences_bound(cells.drop_last(), k);
    }
}


/// The count a tally holds for a class, 0 when it holds none.
pub open spec fn class_count(m: Map<Seq<char>, u64>, c: CompatibilityClass) -> nat {
    if m.contains_key(class_label(c)) {
        m[class_label(c)] as nat
    } else {
        0
    }
}

/// Different classes are counted under different names.
pub proof fn lemma_class_label_injective(a: CompatibilityClass, b: CompatibilityClass)
    ensures
        class_label(a) == class_label(b) ==> a == b,
{
    reveal_strlit("match");
    reveal_strlit("value_mismatch");
    reveal_strlit("same_error");
    reveal_strlit("different_error_kind");
    reveal_strlit("formualizer_only_error");
    reveal_strlit("excel_error_formualizer_value");
    assert(class_label(CompatibilityClass::Match).len() == 5);
    assert(class_label(CompatibilityClass::ValueMismatch).len() == 14);
    assert(class_label(CompatibilityClass::SameError).len() == 10);
    assert(class_label(CompatibilityClass::DifferentErrorKind).len() == 20);
    assert(class_label(CompatibilityClass::FormualizerOnlyError).len() == 22);
    assert(class_label(CompatibilityClass::ExcelErrorFormualizerValue).len() == 29);
}

proof fn lemma_label_occurrences(cells: Seq<ComparedView>, c: CompatibilityClass)
    ensures
        occurrences(class_keys(cells), class_label(c)) == class_occurrences(cells, c),
    decreases cells.len(),
{
    if cells.len() > 0 {
        let q = cells.drop_last();
        lemma_label_occurrences(q, c);
        assert(class_keys(cells).drop_last() =~= class_keys(q));
        lemma_class_label_injective(cell_class(cells.last()), c);
    }
}

/// The count a tally of `cells` holds for a class is the number of cells in it.
pub proof fn lemma_class_count(cells: Seq<ComparedView>, c: CompatibilityClass)
    requires
        cells.len() <= u64::MAX,
    ensures
        class_count(key_counts(class_keys(cells)), c) == class_occurrences(cells, c),
{
    lemma_label_occurrences(cells, c);
    lemma_occurrences_bounds(class_keys(cells), class_label(c));
    lemma_key_lens(cells, Seq::empty());
}

} // verus!
