//! Defined names: what a name stands for, its scope, and the registry that
//! resolves a name (sheet scope first, then workbook scope) and keeps
//! generation counters for invalidation.
use vstd::prelude::*;
use crate::address::{CellId, RangeDescriptor, ReferenceValue, ReferenceView, SpillRef, sat_add_u32};
use crate::formula::{FormulaAst, ScalarLiteral};
use crate::text::{ascii_upper, text_equal, text_less, text_lt, to_ascii_upper, lemma_text_lt_irrefl, lemma_text_lt_trans, lemma_text_lt_total};

verus! {

/// Whether a name is visible in the whole workbook or on one sheet.
#[derive(Clone, Copy, Debug, Eq, PartialEq, Ord, PartialOrd, Hash)]
pub enum NameScope {
    Workbook,
    Sheet,
}

/// The identity of a defined name.
#[derive(Clone, Copy, Debug, Eq, PartialEq, Ord, PartialOrd, Hash)]
pub struct NameId(pub u32);

impl View for NameId {
    type V = NameId;

    open spec fn view(&self) -> NameId {
        *self
    }
}

/// What kind of thing a name resolves to.
#[derive(Clone, Copy, Debug, Eq, PartialEq, Ord, PartialOrd, Hash)]
pub enum ResolvedKind {
    Constant,
    Formula,
    CellReference,
    RangeReference,
    TableStructured,
    DynamicReference,
}

/// The definition behind a name.
#[derive(Debug)]
pub enum NameDefinition {
    Constant(ScalarLiteral),
    Cell(CellId),
    Range(RangeDescriptor),
    Formula { ast: FormulaAst },
    Spill(SpillRef),
    DynamicFormula { ast: FormulaAst },
}

/// The kind a definition resolves to.
pub open spec fn kind_of(d: NameDefinition) -> ResolvedKind {
    match d {
        NameDefinition::Constant(_) => ResolvedKind::Constant,
        NameDefinition::Cell(_) => ResolvedKind::CellReference,
        NameDefinition::Range(_) => ResolvedKind::RangeReference,
        NameDefinition::Spill(_) => ResolvedKind::RangeReference,
        NameDefinition::Formula { .. } => ResolvedKind::Formula,
        NameDefinition::DynamicFormula { .. } => ResolvedKind::DynamicReference,
    }
}

/// The reference a definition denotes directly, if it is one.
pub open spec fn definition_reference(d: NameDefinition) -> Option<ReferenceView> {
    match d {
        NameDefinition::Cell(c) => Some(ReferenceView::Cell(c@)),
        NameDefinition::Range(r) => Some(ReferenceView::Range(r@)),
        NameDefinition::Spill(s) => Some(ReferenceView::Spill(s@)),
        _ => None,
    }
}

impl NameDefinition {
    /// The kind of reference or value the definition resolves to.
    pub fn resolved_kind(&self) -> (r: ResolvedKind)
        ensures
            r == kind_of(*self),
    {
        match self {
            NameDefinition::Constant(_) => ResolvedKind::Constant,
            NameDefinition::Cell(_) => ResolvedKind::CellReference,
            NameDefinition::Range(_) => ResolvedKind::RangeReference,
            NameDefinition::Spill(_) => ResolvedKind::RangeReference,
            NameDefinition::Formula { .. } => ResolvedKind::Formula,
            NameDefinition::DynamicFormula { .. } => ResolvedKind::DynamicReference,
        }
    }

    /// The reference the definition stands for, when it is one.
    pub fn reference(&self) -> (r: Option<ReferenceValue>)
        ensures
            r matches Some(v) ==> definition_reference(*self) == Some(v@),
            r is None <==> definition_reference(*self) is None,
    {
        match self {
            NameDefinition::Cell(cell) => Some(ReferenceValue::Cell(cell.duplicate())),
            NameDefinition::Range(range) => Some(ReferenceValue::Range(range.duplicate())),
            NameDefinition::Spill(spill) => Some(ReferenceValue::Spill(spill.duplicate())),
            _ => None,
        }
    }
}

/// A defined name with its definition and generation counters.
#[derive(Debug)]
pub struct NameDefinitionRecord {
    pub id: NameId,
    pub display_name: String,
    pub scope: NameScope,
    pub scope_sheet: Option<String>,
    pub definition: NameDefinition,
    pub definition_generation: u64,
    pub structural_generation: u64,
    pub resolved_kind: ResolvedKind,
}

/// The lookup key of a name: its sheet (none for workbook scope) and its
/// upper-cased text.
pub type NameKeyView = (Option<Seq<char>>, Seq<char>);

#[derive(Debug)]
struct NameKey {
    scope_sheet: Option<String>,
    name: String,
}

impl View for NameKey {
    type V = NameKeyView;

    closed spec fn view(&self) -> NameKeyView {
        (
            match self.scope_sheet {
                Some(s) => Some(s@),
                None => None,
            },
            self.name@,
        )
    }
}

/// The key under which a definition is stored.
pub open spec fn name_key(scope: NameScope, scope_sheet: Option<String>, display_name: Seq<char>) -> NameKeyView {
    (
        match scope {
            NameScope::Workbook => None,
            NameScope::Sheet => Some(
                match scope_sheet {
                    Some(s) => s@,
                    None => Seq::empty(),
                },
            ),
        },
        ascii_upper(display_name),
    )
}

/// The order of keys: workbook scope first, then by sheet, then by name.
pub open spec fn key_lt(a: NameKeyView, b: NameKeyView) -> bool {
    match (a.0, b.0) {
        (None, Some(_)) => true,
        (Some(_), None) => false,
        (None, None) => text_lt(a.1, b.1),
        (Some(x), Some(y)) => text_lt(x, y) || (x == y && text_lt(a.1, b.1)),
    }
}

proof fn lemma_key_lt_irrefl(a: NameKeyView)
    ensures
        !key_lt(a, a),
{
    lemma_text_lt_irrefl(a.1);
    if let Some(x) = a.0 {
        lemma_text_lt_irrefl(x);
    }
}

proof fn lemma_key_lt_trans(a: NameKeyView, b: NameKeyView, c: NameKeyView)
    requires
        key_lt(a, b),
        key_lt(b, c),
    ensures
        key_lt(a, c),
{
    if text_lt(a.1, b.1) && text_lt(b.1, c.1) {
        lemma_text_lt_trans(a.1, b.1, c.1);
    }
    if let (Some(x), Some(y), Some(z)) = (a.0, b.0, c.0) {
        if text_lt(x, y) && text_lt(y, z) {
            lemma_text_lt_trans(x, y, z);
        }
    }
}

proof fn lemma_key_lt_total(a: NameKeyView, b: NameKeyView)
    ensures
        a == b || key_lt(a, b) || key_lt(b, a),
{
    lemma_text_lt_total(a.1, b.1);
    if let (Some(x), Some(y)) = (a.0, b.0) {
        lemma_text_lt_total(x, y);
    }
}

fn key_less(a: &NameKey, b: &NameKey) -> (r: bool)
    ensures
        r == key_lt(a@, b@),
{
    match (&a.scope_sheet, &b.scope_sheet) {
        (None, Some(_)) => true,
        (Some(_), None) => false,
        (None, None) => text_less(a.name.as_str(), b.name.as_str()),
        (Some(x), Some(y)) => text_less(x.as_str(), y.as_str()) || (text_equal(x.as_str(), y.as_str())
            && text_less(a.name.as_str(), b.name.as_str())),
    }
}

fn key_same(a: &NameKey, b: &NameKey) -> (r: bool)
    ensures
        r == (a@ == b@),
{
    let names = text_equal(a.name.as_str(), b.name.as_str());
    match (&a.scope_sheet, &b.scope_sheet) {
        (None, None) => names,
        (Some(x), Some(y)) => names && text_equal(x.as_str(), y.as_str()),
        _ => false,
    }
}

/// The defined names of a workbook.
#[derive(Debug)]
pub struct NameRegistry {
    next_id: u32,
    keys: Vec<NameKey>,
    entries: Vec<NameDefinitionRecord>,
    by_id: Vec<(u32, NameKey)>,
}

/// The records whose `scope`/`scope_sheet` make a structural change on `sheet` apply.
pub open spec fn applies_to(r: NameDefinitionRecord, sheet: Seq<char>) -> bool {
    r.scope == NameScope::Workbook || (r.scope_sheet matches Some(s) && s@ == sheet)
}

pub open spec fn sat_add_u64(a: u64, b: u64) -> u64 {
    if a + b > u64::MAX {
        u64::MAX
    } else {
        (a + b) as u64
    }
}

/// A cell after inserting `count` rows before row `before` of `sheet`.
pub open spec fn shift_cell(c: CellId, sheet: Seq<char>, before: u32, count: u32) -> CellId {
    if c.sheet@ == sheet && c.row >= before {
        CellId { sheet: c.sheet, row: sat_add_u32(c.row, count), col: c.col }
    } else {
        c
    }
}

/// A definition after inserting rows: cells and spill anchors at or below the
/// insertion move down; a range starting at or below moves down, a range ending
/// at or below grows.
pub open spec fn shift_definition(d: NameDefinition, sheet: Seq<char>, before: u32, count: u32) -> NameDefinition {
    match d {
        NameDefinition::Cell(c) => NameDefinition::Cell(shift_cell(c, sheet, before, count)),
        NameDefinition::Range(r) => if r.sheet@ == sheet && r.start_row >= before {
            NameDefinition::Range(
                RangeDescriptor {
                    start_row: sat_add_u32(r.start_row, count),
                    end_row: sat_add_u32(r.end_row, count),
                    ..r
                },
            )
        } else if r.sheet@ == sheet && r.end_row >= before {
            NameDefinition::Range(RangeDescriptor { end_row: sat_add_u32(r.end_row, count), ..r })
        } else {
            NameDefinition::Range(r)
        },
        NameDefinition::Spill(sp) => NameDefinition::Spill(
            SpillRef { anchor: shift_cell(sp.anchor, sheet, before, count), ..sp },
        ),
        _ => d,
    }
}

/// A record after inserting rows.
pub open spec fn shift_record(r: NameDefinitionRecord, sheet: Seq<char>, before: u32, count: u32) -> NameDefinitionRecord {
    let d = shift_definition(r.definition, sheet, before, count);
    if applies_to(r, sheet) {
        NameDefinitionRecord {
            definition: d,
            structural_generation: sat_add_u64(r.structural_generation, 1),
            definition_generation: sat_add_u64(r.definition_generation, 1),
            ..r
        }
    } else {
        NameDefinitionRecord { definition: d, ..r }
    }
}

/// A record after a structural change on `sheet`.
pub open spec fn structural_record(r: NameDefinitionRecord, sheet: Seq<char>) -> NameDefinitionRecord {
    if applies_to(r, sheet) {
        NameDefinitionRecord { structural_generation: sat_add_u64(r.structural_generation, 1), ..r }
    } else {
        r
    }
}

/// A record after a spill with the same anchor changed shape.
pub open spec fn spill_record(r: NameDefinitionRecord, spill: SpillRef) -> NameDefinitionRecord {
    match r.definition {
        NameDefinition::Spill(existing) => if existing.anchor@ == spill.anchor@ {
            NameDefinitionRecord {
                definition: NameDefinition::Spill(spill),
                definition_generation: sat_add_u64(r.definition_generation, 1),
                resolved_kind: ResolvedKind::RangeReference,
                ..r
            }
        } else {
            r
        },
        _ => r,
    }
}

/// The map from keys to records, given keys in order.
pub open spec fn keyed(keys: Seq<NameKeyView>, entries: Seq<NameDefinitionRecord>) -> Map<NameKeyView, NameDefinitionRecord> {
    Map::new(|k: NameKeyView| keys.contains(k), |k: NameKeyView| entries[keys.index_of(k)])
}

pub open spec fn keys_sorted(keys: Seq<NameKeyView>) -> bool {
    forall|i: int, j: int| 0 <= i < j < keys.len() ==> key_lt(#[trigger] keys[i], #[trigger] keys[j])
}

proof fn lemma_sorted_unique_index(keys: Seq<NameKeyView>, i: int)
    requires
        keys_sorted(keys),
        0 <= i < keys.len(),
    ensures
        keys.index_of(keys[i]) == i,
{
    assert(keys.contains(keys[i]));
    let j = keys.index_of(keys[i]);
    if j != i {
        lemma_key_lt_irrefl(keys[i]);
    }
}

impl NameRegistry {
    /// The keys in the order the records are kept.
    pub closed spec fn key_list(&self) -> Seq<NameKeyView> {
        self.keys@.map_values(|k: NameKey| k@)
    }

    /// The records in key order.
    pub closed spec fn record_list(&self) -> Seq<NameDefinitionRecord> {
        self.entries@
    }

    /// The records by key.
    pub open spec fn records(&self) -> Map<NameKeyView, NameDefinitionRecord> {
        keyed(self.key_list(), self.record_list())
    }

    /// The key last given each identity.
    pub closed spec fn ids(&self) -> Map<u32, NameKeyView> {
        Map::new(
            |id: u32| exists|i: int| 0 <= i < self.by_id@.len() && self.by_id@[i].0 == id,
            |id: u32| self.by_id@[choose|i: int| 0 <= i < self.by_id@.len() && self.by_id@[i].0 == id].1@,
        )
    }

    /// The identity the next new name receives.
    pub closed spec fn next_id_value(&self) -> u32 {
        self.next_id
    }

    /// Internal consistency: keys strictly increasing, one per record;
    /// identities unique; every record's identity issued (below the next
    /// identity, unless identities have run out), and an identity issued once
    /// given to the key of the record that holds it.
    pub closed spec fn wf(&self) -> bool {
        &&& self.keys@.len() == self.entries@.len()
        &&& keys_sorted(self.key_list())
        &&& forall|i: int, j: int|
            0 <= i < j < self.by_id@.len() ==> #[trigger] self.by_id@[i].0 != #[trigger] self.by_id@[j].0
        &&& forall|k: NameKeyView|
            #[trigger] self.records().contains_key(k) ==> (self.records()[k].id.0 < self.next_id || self.next_id == u32::MAX)
        &&& forall|k: NameKeyView|
            #[trigger] self.records().contains_key(k) && self.records()[k].id.0 < self.next_id ==> self.ids().contains_key(
                self.records()[k].id.0,
            ) && self.ids()[self.records()[k].id.0] == k
    }

    /// A registry with no names.
    pub fn new() -> (r: NameRegistry)
        ensures
            r.wf(),
            r.records() == Map::<NameKeyView, NameDefinitionRecord>::empty(),
            r.ids() == Map::<u32, NameKeyView>::empty(),
            r.next_id_value() == 0,
    {
        let r = NameRegistry { next_id: 0, keys: Vec::new(), entries: Vec::new(), by_id: Vec::new() };
        assert(r.records() =~= Map::<NameKeyView, NameDefinitionRecord>::empty());
        assert(r.ids() =~= Map::<u32, NameKeyView>::empty());
        r
    }

    /// The number of defined names.
    pub fn len(&self) -> (r: usize)
        requires
            self.wf(),
        ensures
            r == self.records().len(),
            self.records().dom().finite(),
    {
        proof {
            self.lemma_len();
        }
        self.entries.len()
    }

    /// Whether no name is defined.
    pub fn is_empty(&self) -> (r: bool)
        requires
            self.wf(),
        ensures
            r == (self.records().len() == 0),
    {
        proof {
            self.lemma_len();
        }
        self.entries.len() == 0
    }

    /// A consistent registry holds finitely many names.
    pub proof fn lemma_records_finite(&self)
        requires
            self.wf(),
        ensures
            self.records().dom().finite(),
    {
        self.lemma_len();
    }

    proof fn lemma_len(&self)
        requires
            self.wf(),
        ensures
            self.records().len() == self.entries@.len(),
            self.records().dom() == self.key_list().to_set(),
    {
        let kl = self.key_list();
        assert(self.records().dom() =~= kl.to_set());
        assert(kl.no_duplicates()) by {
            assert forall|i: int, j: int| 0 <= i < kl.len() && 0 <= j < kl.len() && i != j implies kl[i] != kl[j] by {
                if i < j {
                    assert(key_lt(kl[i], kl[j]));
                    if kl[i] == kl[j] {
                        lemma_key_lt_irrefl(kl[i]);
                    }
                } else {
                    assert(key_lt(kl[j], kl[i]));
                    if kl[i] == kl[j] {
                        lemma_key_lt_irrefl(kl[i]);
                    }
                }
            }
        }
        kl.unique_seq_to_set();
    }

    /// The records in key order.
    pub fn iter(&self) -> (r: &Vec<NameDefinitionRecord>)
        requires
            self.wf(),
        ensures
            r.len() == self.key_list().len(),
            keys_sorted(self.key_list()),
            forall|i: int| 0 <= i < r.len() ==> #[trigger] r@[i] == self.records()[self.key_list()[i]],
            forall|k: NameKeyView| #[trigger] self.records().contains_key(k) <==> self.key_list().contains(k),
    {
        proof {
            assert forall|i: int| 0 <= i < self.entries@.len() implies #[trigger] self.entries@[i] == self.records()[self.key_list()[i]] by {
                lemma_sorted_unique_index(self.key_list(), i);
                assert(self.key_list().contains(self.key_list()[i]));
            }
        }
        &self.entries
    }

    /// The position of `key`, or where it would go.
    fn locate(&self, key: &NameKey) -> (r: (bool, usize))
        requires
            self.wf(),
        ensures
            r.1 <= self.keys@.len(),
            r.0 ==> r.1 < self.keys@.len() && self.key_list()[r.1 as int] == key@,
            !r.0 ==> (forall|i: int| 0 <= i < r.1 ==> key_lt(#[trigger] self.key_list()[i], key@)) && (forall|i: int|
                r.1 <= i < self.keys@.len() ==> key_lt(key@, #[trigger] self.key_list()[i])),
    {
        let ghost kl = self.key_list();
        let mut i: usize = 0;
        while i < self.keys.len()
            invariant
                kl == self.key_list(),
                self.wf(),
                i <= self.keys@.len(),
                forall|j: int| 0 <= j < i ==> key_lt(#[trigger] kl[j], key@),
            decreases self.keys.len() - i,
        {
            assert(kl[i as int] == self.keys@[i as int]@);
            if key_same(&self.keys[i], key) {
                return (true, i);
            }
            if key_less(key, &self.keys[i]) {
                proof {
                    assert forall|j: int| i <= j < self.keys@.len() implies key_lt(key@, #[trigger] kl[j]) by {
                        if j > i {
                            lemma_key_lt_trans(key@, kl[i as int], kl[j]);
                        }
                    }
                }
                return (false, i);
            }
            proof {
                lemma_key_lt_total(kl[i as int], key@);
            }
            i = i + 1;
        }
        (false, i)
    }

    /// Looks a key up.
    fn find(&self, key: &NameKey) -> (r: Option<usize>)
        requires
            self.wf(),
        ensures
            r matches Some(i) ==> i < self.entries@.len() && self.records().contains_key(key@) && self.entries@[i as int]
                == self.records()[key@],
            r is None ==> !self.records().contains_key(key@),
    {
        let (found, i) = self.locate(key);
        proof {
            let kl = self.key_list();
            if found {
                lemma_sorted_unique_index(kl, i as int);
                assert(kl.contains(key@));
            } else {
                if kl.contains(key@) {
                    let j = choose|j: int| 0 <= j < kl.len() && kl[j] == key@;
                    lemma_key_lt_irrefl(key@);
                    if j < i {
                        assert(key_lt(kl[j], key@));
                    } else {
                        assert(key_lt(key@, kl[j]));
                    }
                }
            }
        }
        if found {
            Some(i)
        } else {
            None
        }
    }

    /// The record a name resolves to from `current_sheet`: a sheet-scoped
    /// name of that sheet if there is one, else a workbook-scoped name.
    pub fn resolve(&self, name: &str, current_sheet: &str) -> (r: Option<&NameDefinitionRecord>)
        requires
            self.wf(),
        ensures
            r matches Some(x) ==> resolve_spec(self.records(), name@, current_sheet@) == Some(*x),
            r is None <==> resolve_spec(self.records(), name@, current_sheet@) is None,
    {
        let normalized = to_ascii_upper(name);
        let sheet_key = NameKey { scope_sheet: Some(crate::text::string_of(current_sheet)), name: normalized };
        match self.find(&sheet_key) {
            Some(i) => Some(&self.entries[i]),
            None => {
                let book_key = NameKey { scope_sheet: None, name: sheet_key.name };
                match self.find(&book_key) {
                    Some(i) => Some(&self.entries[i]),
                    None => None,
                }
            },
        }
    }
}

/// Resolution: the sheet-scoped record for `sheet`, else the workbook-scoped one.
pub open spec fn resolve_spec(records: Map<NameKeyView, NameDefinitionRecord>, name: Seq<char>, sheet: Seq<char>) -> Option<NameDefinitionRecord> {
    let n = ascii_upper(name);
    if records.contains_key((Some(sheet), n)) {
        Some(records[(Some(sheet), n)])
    } else if records.contains_key((None, n)) {
        Some(records[(None, n)])
    } else {
        None
    }
}

proof fn lemma_keyed_update(keys: Seq<NameKeyView>, entries: Seq<NameDefinitionRecord>, i: int, rec: NameDefinitionRecord)
    requires
        keys_sorted(keys),
        keys.len() == entries.len(),
        0 <= i < keys.len(),
    ensures
        keyed(keys, entries.update(i, rec)) == keyed(keys, entries).insert(keys[i], rec),
{
    let m1 = keyed(keys, entries.update(i, rec));
    let m2 = keyed(keys, entries).insert(keys[i], rec);
    assert(keys.contains(keys[i]));
    lemma_sorted_unique_index(keys, i);
    assert forall|k: NameKeyView| #[trigger] m1.contains_key(k) implies m1[k] == m2[k] by {
        let j = keys.index_of(k);
        assert(keys.contains(k));
        let jj = choose|jj: int| 0 <= jj < keys.len() && keys[jj] == k;
        lemma_sorted_unique_index(keys, jj);
    }
    assert(m1 =~= m2);
}

proof fn lemma_keyed_insert(keys: Seq<NameKeyView>, entries: Seq<NameDefinitionRecord>, pos: int, k: NameKeyView, rec: NameDefinitionRecord)
    requires
        keys_sorted(keys),
        keys.len() == entries.len(),
        0 <= pos <= keys.len(),
        forall|i: int| 0 <= i < pos ==> key_lt(#[trigger] keys[i], k),
        forall|i: int| pos <= i < keys.len() ==> key_lt(k, #[trigger] keys[i]),
    ensures
        keys_sorted(keys.insert(pos, k)),
        keyed(keys.insert(pos, k), entries.insert(pos, rec)) == keyed(keys, entries).insert(k, rec),
{
    let k2 = keys.insert(pos, k);
    let e2 = entries.insert(pos, rec);
    assert forall|i: int, j: int| 0 <= i < j < k2.len() implies key_lt(#[trigger] k2[i], #[trigger] k2[j]) by {
        if j < pos {
        } else if j == pos {
        } else if i == pos {
            assert(k2[j] == keys[j - 1]);
        } else if i < pos {
            assert(k2[j] == keys[j - 1]);
            lemma_key_lt_trans(keys[i], k, keys[j - 1]);
        } else {
            assert(k2[j] == keys[j - 1] && k2[i] == keys[i - 1]);
        }
    }
    let m1 = keyed(k2, e2);
    let m2 = keyed(keys, entries).insert(k, rec);
    assert forall|x: NameKeyView| #[trigger] m1.contains_key(x) <==> m2.contains_key(x) by {
        if k2.contains(x) {
            let j = choose|j: int| 0 <= j < k2.len() && k2[j] == x;
            if j < pos {
                assert(keys[j] == x);
                assert(keys.contains(x));
            } else if j > pos {
                assert(keys[j - 1] == x);
                assert(keys.contains(x));
            }
        }
        if keys.contains(x) {
            let j = choose|j: int| 0 <= j < keys.len() && keys[j] == x;
            if j < pos {
                assert(k2[j] == x);
            } else {
                assert(k2[j + 1] == x);
            }
        }
        if x == k {
            assert(k2[pos] == k);
        }
    }
    assert forall|x: NameKeyView| #[trigger] m1.contains_key(x) implies m1[x] == m2[x] by {
        let j = choose|j: int| 0 <= j < k2.len() && k2[j] == x;
        lemma_sorted_unique_index(k2, j);
        if j < pos {
            lemma_sorted_unique_index(keys, j);
            assert(keys.contains(x));
            assert(x != k) by {
                lemma_key_lt_irrefl(k);
            }
        } else if j > pos {
            lemma_sorted_unique_index(keys, j - 1);
            assert(keys[j - 1] == x);
            assert(keys.contains(x));
            assert(x != k) by {
                lemma_key_lt_irrefl(k);
            }
        }
    }
    assert(m1 =~= m2);
}

fn copy_key(k: &NameKey) -> (r: NameKey)
    ensures
        r@ == k@,
{
    NameKey {
        scope_sheet: match &k.scope_sheet {
            Some(s) => Some(s.clone()),
            None => None,
        },
        name: k.name.clone(),
    }
}

/// A record of no name, used to hold a slot while its record is rewritten.
fn placeholder_record() -> (r: NameDefinitionRecord)
    ensures
        r.id == NameId(0),
        r.display_name@ == Seq::<char>::empty(),
        r.scope == NameScope::Workbook,
        r.scope_sheet is None,
        r.definition == NameDefinition::Constant(ScalarLiteral::Empty),
        r.definition_generation == 0,
        r.structural_generation == 0,
        r.resolved_kind == ResolvedKind::Constant,
{
    NameDefinitionRecord {
        id: NameId(0),
        display_name: String::new(),
        scope: NameScope::Workbook,
        scope_sheet: None,
        definition: NameDefinition::Constant(ScalarLiteral::Empty),
        definition_generation: 0,
        structural_generation: 0,
        resolved_kind: ResolvedKind::Constant,
    }
}

/// The records after defining `display_name` with `definition` (see
/// [`NameRegistry::define`]).
pub open spec fn records_after_define(
    records: Map<NameKeyView, NameDefinitionRecord>,
    next_id: u32,
    display_name: String,
    scope: NameScope,
    scope_sheet: Option<String>,
    definition: NameDefinition,
) -> Map<NameKeyView, NameDefinitionRecord> {
    let key = name_key(scope, scope_sheet, display_name@);
    if records.contains_key(key) {
        let prev = records[key];
        records.insert(
            key,
            NameDefinitionRecord {
                id: prev.id,
                display_name,
                scope: prev.scope,
                scope_sheet,
                definition,
                definition_generation: sat_add_u64(prev.definition_generation, 1),
                structural_generation: prev.structural_generation,
                resolved_kind: kind_of(definition),
            },
        )
    } else {
        records.insert(
            key,
            NameDefinitionRecord {
                id: NameId(next_id),
                display_name,
                scope,
                scope_sheet,
                definition,
                definition_generation: 1,
                structural_generation: 0,
                resolved_kind: kind_of(definition),
            },
        )
    }
}

impl NameRegistry {
    /// Defines a name, or redefines the name with the same key (scope and
    /// upper-cased text): a redefinition keeps the identity, scope and
    /// structural generation, takes the new definition, display name and
    /// sheet, and counts one more definition generation; a new name receives
    /// the next identity, definition generation 1 and structural generation 0.
    pub fn define(&mut self, display_name: String, scope: NameScope, scope_sheet: Option<String>, definition: NameDefinition) -> (r: NameId)
        requires
            old(self).wf(),
        ensures
            final(self).wf(),
            final(self).records() == records_after_define(
                old(self).records(),
                old(self).next_id_value(),
                display_name,
                scope,
                scope_sheet,
                definition,
            ),
            ({
                let key = name_key(scope, scope_sheet, display_name@);
                if old(self).records().contains_key(key) {
                    let prev = old(self).records()[key];
                    &&& r == prev.id
                    &&& final(self).records() == old(self).records().insert(
                        key,
                        NameDefinitionRecord {
                            id: prev.id,
                            display_name,
                            scope: prev.scope,
                            scope_sheet,
                            definition,
                            definition_generation: sat_add_u64(prev.definition_generation, 1),
                            structural_generation: prev.structural_generation,
                            resolved_kind: kind_of(definition),
                        },
                    )
                    &&& final(self).ids() == old(self).ids()
                    &&& final(self).next_id_value() == old(self).next_id_value()
                } else {
                    &&& r == NameId(old(self).next_id_value())
                    &&& final(self).records() == old(self).records().insert(
                        key,
                        NameDefinitionRecord {
                            id: r,
                            display_name,
                            scope,
                            scope_sheet,
                            definition,
                            definition_generation: 1,
                            structural_generation: 0,
                            resolved_kind: kind_of(definition),
                        },
                    )
                    &&& final(self).ids() == old(self).ids().insert(old(self).next_id_value(), key)
                    &&& final(self).next_id_value() == sat_add_u32(old(self).next_id_value(), 1)
                }
            }),
            old(self).next_id_value() < u32::MAX ==> final(self).ids().contains_key(r.0) && final(self).ids()[r.0]
                == name_key(scope, scope_sheet, display_name@),
            final(self).records().dom().finite(),
            final(self).records().len() == old(self).records().len() + if old(self).records().contains_key(
                name_key(scope, scope_sheet, display_name@),
            ) {
                0int
            } else {
                1int
            },
    {
        proof {
            self.lemma_records_finite();
        }
        let ghost key_view = name_key(scope, scope_sheet, display_name@);
        let normalized = to_ascii_upper(display_name.as_str());
        let key_scope = match scope {
            NameScope::Workbook => None,
            NameScope::Sheet => Some(
                match &scope_sheet {
                    Some(s) => s.clone(),
                    None => String::new(),
                },
            ),
        };
        let key = NameKey { scope_sheet: key_scope, name: normalized };
        assert(key@ == key_view);
        let kind = definition.resolved_kind();
        let (found, pos) = self.locate(&key);
        let ghost kl = self.key_list();
        let ghost en = self.entries@;
        if found {
            proof {
                lemma_sorted_unique_index(kl, pos as int);
                assert(kl.contains(key@));
            }
            let mut prev = placeholder_record();
            self.entries.set_and_swap(pos, &mut prev);
            let id = prev.id;
            let rec = NameDefinitionRecord {
                id: prev.id,
                display_name,
                scope: prev.scope,
                scope_sheet,
                definition,
                definition_generation: prev.definition_generation.saturating_add(1),
                structural_generation: prev.structural_generation,
                resolved_kind: kind,
            };
            self.entries.set(pos, rec);
            proof {
                assert(self.entries@ == en.update(pos as int, rec));
                assert(self.key_list() == kl);
                lemma_keyed_update(kl, en, pos as int, rec);
                assert(old(self).records().contains_key(key_view));
                assert(old(self).records()[key_view] == prev);
                assert(self.ids() == old(self).ids());
                assert forall|k: NameKeyView| #[trigger] self.records().contains_key(k) implies (self.records()[k].id.0
                    < self.next_id || self.next_id == u32::MAX) && (self.records()[k].id.0 < self.next_id ==> self.ids().contains_key(
                    self.records()[k].id.0,
                ) && self.ids()[self.records()[k].id.0] == k) by {
                    assert(old(self).records().contains_key(k));
                    assert(self.records()[k].id == old(self).records()[k].id);
                }
                self.lemma_len();
                assert(self.records().dom() =~= old(self).records().dom().insert(key_view));
            }
            id
        } else {
            let id = NameId(self.next_id);
            self.next_id = self.next_id.saturating_add(1);
            let rec = NameDefinitionRecord {
                id,
                display_name,
                scope,
                scope_sheet,
                definition,
                definition_generation: 1,
                structural_generation: 0,
                resolved_kind: kind,
            };
            let id_key = copy_key(&key);
            let ghost ids0 = self.ids();
            let ghost bid0 = self.by_id@;
            let mut j: usize = 0;
            let mut replaced = false;
            while j < self.by_id.len() && self.by_id[j].0 != id.0
                invariant
                    j <= self.by_id@.len(),
                    self.by_id@ == bid0,
                    forall|t: int| 0 <= t < j ==> #[trigger] bid0[t].0 != id.0,
                decreases self.by_id.len() - j,
            {
                j = j + 1;
            }
            let ghost kv = id_key@;
            if j < self.by_id.len() {
                assert(bid0[j as int].0 == id.0);
                self.by_id.set(j, (id.0, id_key));
                replaced = true;
                assert(self.by_id@ == bid0.update(j as int, (id.0, id_key)));
            } else {
                self.by_id.push((id.0, id_key));
                assert(self.by_id@ == bid0.push((id.0, id_key)));
            }
            proof {
                let b = self.by_id@;
                assert forall|s: int, t: int| 0 <= s < t < b.len() implies #[trigger] b[s].0 != #[trigger] b[t].0 by {
                    if replaced {
                        if s == j as int {
                            assert(bid0[s].0 != bid0[t].0);
                        } else if t == j as int {
                            assert(bid0[s].0 != bid0[t].0);
                        } else {
                            assert(b[s] == bid0[s] && b[t] == bid0[t]);
                        }
                    } else if t == bid0.len() {
                        assert(b[s] == bid0[s]);
                    } else {
                        assert(b[s] == bid0[s] && b[t] == bid0[t]);
                    }
                }
                let m = self.ids();
                assert forall|x: u32| #[trigger] m.contains_key(x) <==> ids0.insert(id.0, kv).contains_key(x) by {
                    if m.contains_key(x) {
                        let t = choose|t: int| 0 <= t < b.len() && b[t].0 == x;
                        if x != id.0 {
                            if replaced && t == j as int {
                            } else if !replaced && t == bid0.len() {
                            } else {
                                assert(bid0[t].0 == x);
                            }
                        }
                    }
                    if ids0.contains_key(x) {
                        let t = choose|t: int| 0 <= t < bid0.len() && bid0[t].0 == x;
                        if replaced && t == j as int {
                            assert(b[t].0 == x);
                        } else {
                            assert(b[t].0 == x);
                        }
                    }
                    if x == id.0 {
                        if replaced {
                            assert(b[j as int].0 == x);
                        } else {
                            assert(b[bid0.len() as int].0 == x);
                        }
                    }
                }
                assert forall|x: u32| #[trigger] m.contains_key(x) implies m[x] == ids0.insert(id.0, kv)[x] by {
                    let t = choose|t: int| 0 <= t < b.len() && b[t].0 == x;
                    if x == id.0 {
                        let w = if replaced { j as int } else { bid0.len() as int };
                        assert(b[w].0 == x);
                        if t != w {
                            if t < w {
                                assert(b[t].0 != b[w].0);
                            } else {
                                assert(b[w].0 != b[t].0);
                            }
                        }
                    } else {
                        let t0 = choose|t0: int| 0 <= t0 < bid0.len() && bid0[t0].0 == x;
                        assert(b[t0].0 == x);
                        if t != t0 {
                            if t < t0 {
                                assert(b[t].0 != b[t0].0);
                            } else {
                                assert(b[t0].0 != b[t].0);
                            }
                        }
                    }
                }
                assert(m =~= ids0.insert(id.0, kv));
            }
            self.keys.insert(pos, key);
            self.entries.insert(pos, rec);
            proof {
                assert(self.key_list() =~= kl.insert(pos as int, key_view));
                assert(self.entries@ == en.insert(pos as int, rec));
                lemma_keyed_insert(kl, en, pos as int, key_view, rec);
                assert(self.records() =~= keyed(kl, en).insert(key_view, rec));
                assert(!keyed(kl, en).contains_key(key_view)) by {
                    if kl.contains(key_view) {
                        let t = choose|t: int| 0 <= t < kl.len() && kl[t] == key_view;
                        lemma_key_lt_irrefl(key_view);
                        if t < pos {
                            assert(key_lt(kl[t], key_view));
                        } else {
                            assert(key_lt(key_view, kl[t]));
                        }
                    }
                }
            }
            proof {
                self.lemma_len();
                assert(self.records().dom() =~= old(self).records().dom().insert(key_view));
            }
            id
        }
    }

    /// The record of an identity: the record under the key the identity was
    /// last given, if that key is defined.
    pub fn get(&self, id: &NameId) -> (r: Option<&NameDefinitionRecord>)
        requires
            self.wf(),
        ensures
            r matches Some(x) ==> self.ids().contains_key(id.0) && self.records().contains_key(self.ids()[id.0])
                && *x == self.records()[self.ids()[id.0]],
            r is None <==> !(self.ids().contains_key(id.0) && self.records().contains_key(self.ids()[id.0])),
    {
        let mut j: usize = 0;
        while j < self.by_id.len()
            invariant
                self.wf(),
                j <= self.by_id@.len(),
                forall|t: int| 0 <= t < j ==> #[trigger] self.by_id@[t].0 != id.0,
            decreases self.by_id.len() - j,
        {
            if self.by_id[j].0 == id.0 {
                proof {
                    let t = choose|t: int| 0 <= t < self.by_id@.len() && self.by_id@[t].0 == id.0;
                    if t != j as int {
                        if t < j {
                        } else {
                            assert(self.by_id@[j as int].0 != self.by_id@[t].0);
                        }
                    }
                    assert(self.ids()[id.0] == self.by_id@[j as int].1@);
                }
                return match self.find(&self.by_id[j].1) {
                    Some(i) => Some(&self.entries[i]),
                    None => None,
                };
            }
            j = j + 1;
        }
        None
    }
}

/// Rewriting records without changing their keys or identities keeps a
/// registry consistent.
proof fn lemma_wf_same_ids(a: NameRegistry, b: NameRegistry)
    requires
        a.wf(),
        b.key_list() == a.key_list(),
        b.entries@.len() == a.entries@.len(),
        forall|i: int| 0 <= i < a.entries@.len() ==> (#[trigger] b.entries@[i]).id == a.entries@[i].id,
        b.by_id@ == a.by_id@,
        b.next_id == a.next_id,
    ensures
        b.wf(),
{
    assert(b.keys@.len() == b.key_list().len());
    assert(a.keys@.len() == a.key_list().len());
    assert forall|k: NameKeyView| #[trigger] b.records().contains_key(k) implies a.records().contains_key(k)
        && b.records()[k].id == a.records()[k].id by {
        let j = b.key_list().index_of(k);
        assert(b.key_list().contains(k));
        let t = choose|t: int| 0 <= t < b.key_list().len() && b.key_list()[t] == k;
        assert(0 <= j < b.key_list().len());
        assert(b.entries@[j].id == a.entries@[j].id);
    }
    assert(b.ids() =~= a.ids());
}

proof fn lemma_keyed_map(
    keys: Seq<NameKeyView>,
    en: Seq<NameDefinitionRecord>,
    en2: Seq<NameDefinitionRecord>,
    f: spec_fn(NameDefinitionRecord) -> NameDefinitionRecord,
)
    requires
        keys_sorted(keys),
        keys.len() == en.len(),
        en2.len() == en.len(),
        forall|i: int| 0 <= i < en.len() ==> #[trigger] en2[i] == f(en[i]),
    ensures
        keyed(keys, en2) == keyed(keys, en).map_values(f),
{
    assert(keyed(keys, en2) =~= keyed(keys, en).map_values(f));
}

fn shift_cell_exec(c: CellId, sheet: &str, before: u32, count: u32) -> (r: CellId)
    ensures
        r == shift_cell(c, sheet@, before, count),
{
    if c.row >= before && text_equal(c.sheet.as_str(), sheet) {
        CellId { sheet: c.sheet, row: c.row.saturating_add(count), col: c.col }
    } else {
        c
    }
}

fn applies_exec(r: &NameDefinitionRecord, sheet: &str) -> (b: bool)
    ensures
        b == applies_to(*r, sheet@),
{
    match r.scope {
        NameScope::Workbook => true,
        NameScope::Sheet => match &r.scope_sheet {
            Some(s) => text_equal(s.as_str(), sheet),
            None => false,
        },
    }
}

fn shift_record_exec(r: NameDefinitionRecord, sheet: &str, before: u32, count: u32) -> (o: NameDefinitionRecord)
    ensures
        o == shift_record(r, sheet@, before, count),
{
    let applies = applies_exec(&r, sheet);
    let NameDefinitionRecord {
        id,
        display_name,
        scope,
        scope_sheet,
        definition,
        definition_generation,
        structural_generation,
        resolved_kind,
    } = r;
    let definition = match definition {
        NameDefinition::Cell(c) => NameDefinition::Cell(shift_cell_exec(c, sheet, before, count)),
        NameDefinition::Range(range) => {
            if range.start_row >= before && text_equal(range.sheet.as_str(), sheet) {
                NameDefinition::Range(
                    RangeDescriptor {
                        start_row: range.start_row.saturating_add(count),
                        end_row: range.end_row.saturating_add(count),
                        ..range
                    },
                )
            } else if range.end_row >= before && text_equal(range.sheet.as_str(), sheet) {
                NameDefinition::Range(RangeDescriptor { end_row: range.end_row.saturating_add(count), ..range })
            } else {
                NameDefinition::Range(range)
            }
        },
        NameDefinition::Spill(sp) => NameDefinition::Spill(
            SpillRef { anchor: shift_cell_exec(sp.anchor, sheet, before, count), rows: sp.rows, cols: sp.cols },
        ),
        other => other,
    };
    if applies {
        NameDefinitionRecord {
            id,
            display_name,
            scope,
            scope_sheet,
            definition,
            definition_generation: definition_generation.saturating_add(1),
            structural_generation: structural_generation.saturating_add(1),
            resolved_kind,
        }
    } else {
        NameDefinitionRecord {
            id,
            display_name,
            scope,
            scope_sheet,
            definition,
            definition_generation,
            structural_generation,
            resolved_kind,
        }
    }
}

fn structural_record_exec(r: NameDefinitionRecord, sheet: &str) -> (o: NameDefinitionRecord)
    ensures
        o == structural_record(r, sheet@),
{
    if applies_exec(&r, sheet) {
        NameDefinitionRecord { structural_generation: r.structural_generation.saturating_add(1), ..r }
    } else {
        r
    }
}

fn spill_record_exec(r: NameDefinitionRecord, spill: &SpillRef) -> (o: NameDefinitionRecord)
    ensures
        o == spill_record(r, *spill),
{
    let matches_anchor = match &r.definition {
        NameDefinition::Spill(existing) => existing.anchor.same(&spill.anchor),
        _ => false,
    };
    if matches_anchor {
        NameDefinitionRecord {
            definition: NameDefinition::Spill(spill.duplicate()),
            definition_generation: r.definition_generation.saturating_add(1),
            resolved_kind: ResolvedKind::RangeReference,
            ..r
        }
    } else {
        r
    }
}

impl NameRegistry {
    /// Moves every name's cells below an insertion of `count` rows before row
    /// `before` on `sheet`, and counts a structural and a definition generation
    /// for each name the change applies to.
    pub fn shift_rows(&mut self, sheet: &str, before: u32, count: u32)
        requires
            old(self).wf(),
        ensures
            final(self).wf(),
            final(self).records() == old(self).records().map_values(|r: NameDefinitionRecord| shift_record(r, sheet@, before, count)),
            final(self).ids() == old(self).ids(),
            final(self).next_id_value() == old(self).next_id_value(),
    {
        let ghost en = self.entries@;
        let ghost f = |r: NameDefinitionRecord| shift_record(r, sheet@, before, count);
        let mut i: usize = 0;
        while i < self.entries.len()
            invariant
                self.wf(),
                old(self).wf(),
                self.entries@.len() == en.len(),
                self.key_list() == old(self).key_list(),
                self.by_id@ == old(self).by_id@,
                self.next_id == old(self).next_id,
                en == old(self).entries@,
                i <= en.len(),
                forall|k: int| 0 <= k < i ==> #[trigger] self.entries@[k] == shift_record(en[k], sheet@, before, count),
                forall|k: int| i <= k < en.len() ==> #[trigger] self.entries@[k] == en[k],
            decreases en.len() - i,
        {
            let mut rec = placeholder_record();
            self.entries.set_and_swap(i, &mut rec);
            let ghost was = rec;
            let shifted = shift_record_exec(rec, sheet, before, count);
            self.entries.set(i, shifted);
            assert(was == en[i as int]);
            assert(self.entries@[i as int] == shift_record(en[i as int], sheet@, before, count));
            proof {
                assert forall|k: int| 0 <= k < en.len() implies (#[trigger] self.entries@[k]).id == old(self).entries@[k].id by {
                    if k <= i {
                        assert(self.entries@[k] == shift_record(en[k], sheet@, before, count));
                    }
                }
                lemma_wf_same_ids(*old(self), *self);
            }
            i = i + 1;
        }
        proof {
            assert forall|k: int| 0 <= k < en.len() implies #[trigger] self.entries@[k] == f(en[k]) by {
                assert(self.entries@[k] == shift_record(en[k], sheet@, before, count));
            }
            lemma_keyed_map(self.key_list(), en, self.entries@, f);
        }
    }

    /// Counts a structural generation for every name a change on `sheet` applies to.
    pub fn mark_structural_change(&mut self, sheet: &str)
        requires
            old(self).wf(),
        ensures
            final(self).wf(),
            final(self).records() == old(self).records().map_values(|r: NameDefinitionRecord| structural_record(r, sheet@)),
            final(self).ids() == old(self).ids(),
            final(self).next_id_value() == old(self).next_id_value(),
    {
        let ghost en = self.entries@;
        let ghost f = |r: NameDefinitionRecord| structural_record(r, sheet@);
        let mut i: usize = 0;
        while i < self.entries.len()
            invariant
                self.wf(),
                old(self).wf(),
                self.entries@.len() == en.len(),
                self.key_list() == old(self).key_list(),
                self.by_id@ == old(self).by_id@,
                self.next_id == old(self).next_id,
                en == old(self).entries@,
                i <= en.len(),
                forall|k: int| 0 <= k < i ==> #[trigger] self.entries@[k] == structural_record(en[k], sheet@),
                forall|k: int| i <= k < en.len() ==> #[trigger] self.entries@[k] == en[k],
            decreases en.len() - i,
        {
            let mut rec = placeholder_record();
            self.entries.set_and_swap(i, &mut rec);
            let ghost was = rec;
            let updated = structural_record_exec(rec, sheet);
            self.entries.set(i, updated);
            assert(was == en[i as int]);
            assert(self.entries@[i as int] == structural_record(en[i as int], sheet@));
            proof {
                assert forall|k: int| 0 <= k < en.len() implies (#[trigger] self.entries@[k]).id == old(self).entries@[k].id by {
                    if k <= i {
                        assert(self.entries@[k] == structural_record(en[k], sheet@));
                    }
                }
                lemma_wf_same_ids(*old(self), *self);
            }
            i = i + 1;
        }
        proof {
            assert forall|k: int| 0 <= k < en.len() implies #[trigger] self.entries@[k] == f(en[k]) by {
                assert(self.entries@[k] == structural_record(en[k], sheet@));
            }
            lemma_keyed_map(self.key_list(), en, self.entries@, f);
        }
    }

    /// Gives every name defined as a spill at the anchor of `spill` the new
    /// shape, and counts a definition generation for it.
    pub fn update_spill(&mut self, spill: &SpillRef)
        requires
            old(self).wf(),
        ensures
            final(self).wf(),
            final(self).records() == old(self).records().map_values(|r: NameDefinitionRecord| spill_record(r, *spill)),
            final(self).ids() == old(self).ids(),
            final(self).next_id_value() == old(self).next_id_value(),
    {
        let ghost en = self.entries@;
        let ghost f = |r: NameDefinitionRecord| spill_record(r, *spill);
        let mut i: usize = 0;
        while i < self.entries.len()
            invariant
                self.wf(),
                old(self).wf(),
                self.entries@.len() == en.len(),
                self.key_list() == old(self).key_list(),
                self.by_id@ == old(self).by_id@,
                self.next_id == old(self).next_id,
                en == old(self).entries@,
                i <= en.len(),
                forall|k: int| 0 <= k < i ==> #[trigger] self.entries@[k] == spill_record(en[k], *spill),
                forall|k: int| i <= k < en.len() ==> #[trigger] self.entries@[k] == en[k],
            decreases en.len() - i,
        {
            let mut rec = placeholder_record();
            self.entries.set_and_swap(i, &mut rec);
            let ghost was = rec;
            let updated = spill_record_exec(rec, spill);
            self.entries.set(i, updated);
            assert(was == en[i as int]);
            assert(self.entries@[i as int] == spill_record(en[i as int], *spill));
            proof {
                assert forall|k: int| 0 <= k < en.len() implies (#[trigger] self.entries@[k]).id == old(self).entries@[k].id by {
                    if k <= i {
                        assert(self.entries@[k] == spill_record(en[k], *spill));
                    }
                }
                lemma_wf_same_ids(*old(self), *self);
            }
            i = i + 1;
        }
        proof {
            assert forall|k: int| 0 <= k < en.len() implies #[trigger] self.entries@[k] == f(en[k]) by {
                assert(self.entries@[k] == spill_record(en[k], *spill));
            }
            lemma_keyed_map(self.key_list(), en, self.entries@, f);
        }
    }
}
} // verus!
