//! Resolving what a formula refers to: cell and range references (a range's
//! missing bounds filled in), defined names, and references chosen at run
//! time, each read recorded in the evaluation's trace.
use vstd::prelude::*;
use crate::address::{CellId, CellView, RangeDescriptor, RangeView, ReferenceValue, ReferenceView, normalized_range};
use crate::dependency::{EffectKey, EffectView};
use crate::formula::{ErrorKind, EvalError, FormulaAst, ReferenceTarget, ScalarLiteral};
use crate::names::{NameDefinition, NameDefinitionRecord, NameRegistry, resolve_spec};
use crate::text::{push_str, string_of};
use crate::trace::{ExecutionRead, ReadView, TraceReport, TraceSummary, after_name_read, after_range_read, after_read};

verus! {

/// What a reference in a formula stands for once resolved. A formula held by
/// a name is lent out of the name registry, not copied.
pub enum ResolvedReference<'a> {
    Reference(ReferenceValue),
    Constant(ScalarLiteral),
    Formula(&'a FormulaAst),
    DynamicFormula(&'a FormulaAst),
}

/// Whether `v` is what the definition `d` resolves to.
pub open spec fn resolves_to<'a>(v: ResolvedReference<'a>, d: NameDefinition) -> bool {
    match d {
        NameDefinition::Constant(c) => v matches ResolvedReference::Constant(x) && x == c,
        NameDefinition::Cell(c) => v matches ResolvedReference::Reference(x) && x@ == ReferenceView::Cell(c@),
        NameDefinition::Range(g) => v matches ResolvedReference::Reference(x) && x@ == ReferenceView::Range(g@),
        NameDefinition::Spill(s) => v matches ResolvedReference::Reference(x) && x@ == ReferenceView::Spill(s@),
        NameDefinition::Formula { ast } => v matches ResolvedReference::Formula(a) && *a == ast,
        NameDefinition::DynamicFormula { ast } => v matches ResolvedReference::DynamicFormula(a) && *a == ast,
    }
}

/// The trace after `reader` resolved a name to `rec`: the name read, and the
/// read of the range or spill the name stands for.
pub open spec fn resolution_summary(o: TraceSummary, reader: CellView, rec: NameDefinitionRecord) -> TraceSummary {
    let a = after_name_read(o, reader, rec.id);
    match rec.definition {
        NameDefinition::Range(g) => after_range_read(a, reader, g@),
        NameDefinition::Spill(s) => after_read(a, ReadView::Spill(s@)),
        _ => a,
    }
}

/// The selector recorded for a dynamic reference chosen by a literal.
pub open spec fn literal_selector() -> CellView {
    CellView { sheet: "<literal>"@, row: 0, col: 0 }
}

/// The trace after a reference chosen at run time: the selector (or the
/// literal marker) and a chosen cell become effects, and the read is recorded.
pub open spec fn dynamic_summary(o: TraceSummary, selector: Option<CellView>, target: ReferenceView) -> TraceSummary {
    let sel = match selector {
        Some(c) => c,
        None => literal_selector(),
    };
    let with_selector = o.effects.insert(EffectView::DynamicSelector(sel));
    let effects = match target {
        ReferenceView::Cell(c) => with_selector.insert(EffectView::DynamicTarget(c)),
        _ => with_selector,
    };
    after_read(TraceSummary { effects, ..o }, ReadView::Dynamic { selector, target })
}

/// The sheet a reference names, or the formula's own sheet.
pub open spec fn sheet_or(sheet: Option<String>, current: Seq<char>) -> Seq<char> {
    match sheet {
        Some(s) => s@,
        None => current,
    }
}

/// A bound, or its default.
pub open spec fn bound_or(b: Option<u32>, default: u32) -> u32 {
    match b {
        Some(v) => v,
        None => default,
    }
}

/// The range a range reference denotes: a missing start is row or column 1,
/// a missing end is the start.
pub open spec fn reference_range(
    sheet: Seq<char>,
    start_row: Option<u32>,
    start_col: Option<u32>,
    end_row: Option<u32>,
    end_col: Option<u32>,
) -> RangeView {
    let r1 = bound_or(start_row, 1);
    let c1 = bound_or(start_col, 1);
    normalized_range(sheet, r1, c1, bound_or(end_row, r1), bound_or(end_col, c1))
}

fn sheet_name(sheet: &Option<String>, current_sheet: &str) -> (r: String)
    ensures
        r@ == sheet_or(*sheet, current_sheet@),
{
    match sheet {
        Some(s) => s.clone(),
        None => string_of(current_sheet),
    }
}

fn bound(b: &Option<u32>, default: u32) -> (r: u32)
    ensures
        r == bound_or(*b, default),
{
    match b {
        Some(v) => *v,
        None => default,
    }
}

/// `range` as a reference, with `reader`'s read of it recorded.
pub fn range_reference(trace: &mut TraceReport, reader: &CellId, range: RangeDescriptor) -> (r: ReferenceValue)
    requires
        old(trace).wf(),
    ensures
        final(trace).wf(),
        r@ == ReferenceView::Range(range@),
        final(trace).summary() == after_range_read(old(trace).summary(), reader@, range@),
{
    trace.record_range_read(reader, range.duplicate());
    ReferenceValue::Range(range)
}

/// Resolves the name `name` as seen from `current_sheet`: a `#NAME?` error,
/// with nothing recorded, when no such name is defined; else what its
/// definition stands for, with the name read (and the read of a range or
/// spill it stands for) recorded for `reader`.
pub fn name_resolution<'a>(
    names: &'a NameRegistry,
    trace: &mut TraceReport,
    reader: &CellId,
    name: &str,
    current_sheet: &str,
) -> (r: Result<ResolvedReference<'a>, ErrorKind>)
    requires
        names.wf(),
        old(trace).wf(),
    ensures
        final(trace).wf(),
        resolve_spec(names.records(), name@, current_sheet@) is None ==> r == Err::<ResolvedReference<'a>, ErrorKind>(
            ErrorKind::Name,
        ) && final(trace).summary() == old(trace).summary(),
        resolve_spec(names.records(), name@, current_sheet@) is Some ==> ({
            let rec = resolve_spec(names.records(), name@, current_sheet@)->0;
            &&& r is Ok
            &&& resolves_to(r->Ok_0, rec.definition)
            &&& final(trace).summary() == resolution_summary(old(trace).summary(), reader@, rec)
        }),
{
    match names.resolve(name, current_sheet) {
        None => Err(ErrorKind::Name),
        Some(record) => {
            trace.record_name_read(reader, record.id);
            match &record.definition {
                NameDefinition::Constant(value) => Ok(ResolvedReference::Constant(value.duplicate())),
                NameDefinition::Cell(cell) => Ok(ResolvedReference::Reference(ReferenceValue::Cell(cell.duplicate()))),
                NameDefinition::Range(range) => Ok(
                    ResolvedReference::Reference(range_reference(trace, reader, range.duplicate())),
                ),
                NameDefinition::Spill(spill) => {
                    trace.record_read(ExecutionRead::Spill(spill.duplicate()));
                    Ok(ResolvedReference::Reference(ReferenceValue::Spill(spill.duplicate())))
                },
                NameDefinition::Formula { ast } => Ok(ResolvedReference::Formula(ast)),
                NameDefinition::DynamicFormula { ast } => Ok(ResolvedReference::DynamicFormula(ast)),
            }
        },
    }
}

/// A reference chosen at run time, returned as it is: the selector cell (or,
/// for a literal choice, the marker cell `<literal>` row 0 column 0) and a
/// chosen cell are recorded as effects, and the read as a dynamic read.
pub fn dynamic_reference(trace: &mut TraceReport, selector: Option<CellId>, target: ReferenceValue) -> (r:
    ReferenceValue)
    requires
        old(trace).wf(),
    ensures
        final(trace).wf(),
        r == target,
        final(trace).summary() == dynamic_summary(
            old(trace).summary(),
            match selector {
                Some(c) => Some(c@),
                None => None,
            },
            target@,
        ),
{
    match &selector {
        Some(s) => trace.record_effect(EffectKey::DynamicSelector(s.duplicate())),
        None => trace.record_effect(EffectKey::DynamicSelector(CellId::new(string_of("<literal>"), 0, 0))),
    }
    if let ReferenceValue::Cell(cell) = &target {
        trace.record_effect(EffectKey::DynamicTarget(cell.duplicate()));
    }
    trace.record_read(ExecutionRead::Dynamic { selector, target: target.duplicate() });
    target
}

/// The reason given for a table reference, which is not supported.
pub open spec fn table_unsupported_message(table: Seq<char>) -> Seq<char> {
    "table reference unsupported in POC: "@ + table
}

/// The reason given for a 3D or external reference, which is not supported.
pub open spec fn external_unsupported_message() -> Seq<char> {
    "external or 3D reference unsupported in POC"@
}

/// Resolves a reference written in a formula of `current_sheet`: a cell (on
/// the formula's sheet when none is named), a range (missing bounds filled
/// in; its read recorded), or a defined name (see [`name_resolution`]).
/// Table, 3D and external references are not supported: `#N/IMPL!` with
/// the reason (see [`table_unsupported_message`] and
/// [`external_unsupported_message`]), with nothing recorded. An undefined
/// name is `#NAME?` with no reason given.
pub fn resolve_ast_reference<'a>(
    names: &'a NameRegistry,
    trace: &mut TraceReport,
    reader: &CellId,
    reference: &ReferenceTarget,
    current_sheet: &str,
) -> (r: Result<ResolvedReference<'a>, EvalError>)
    requires
        names.wf(),
        old(trace).wf(),
    ensures
        final(trace).wf(),
        match *reference {
            ReferenceTarget::Cell { sheet, row, col } => {
                &&& final(trace).summary() == old(trace).summary()
                &&& r is Ok
                &&& r->Ok_0 is Reference
                &&& r->Ok_0->Reference_0@ == ReferenceView::Cell(
                    CellView { sheet: sheet_or(sheet, current_sheet@), row, col },
                )
            },
            ReferenceTarget::Range { sheet, start_row, start_col, end_row, end_col } => {
                let g = reference_range(sheet_or(sheet, current_sheet@), start_row, start_col, end_row, end_col);
                &&& r is Ok
                &&& r->Ok_0 is Reference
                &&& r->Ok_0->Reference_0@ == ReferenceView::Range(g)
                &&& final(trace).summary() == after_range_read(old(trace).summary(), reader@, g)
            },
            ReferenceTarget::NamedRange(name) => match resolve_spec(names.records(), name@, current_sheet@) {
                None => r is Err && r->Err_0.kind == ErrorKind::Name && r->Err_0.message_text() is None
                    && final(trace).summary() == old(trace).summary(),
                Some(rec) => {
                    &&& r is Ok
                    &&& resolves_to(r->Ok_0, rec.definition)
                    &&& final(trace).summary() == resolution_summary(old(trace).summary(), reader@, rec)
                },
            },
            ReferenceTarget::Table(name) => {
                &&& r is Err
                &&& r->Err_0.kind == ErrorKind::NImpl
                &&& r->Err_0.message_text() == Some(table_unsupported_message(name@))
                &&& final(trace).summary() == old(trace).summary()
            },
            _ => {
                &&& r is Err
                &&& r->Err_0.kind == ErrorKind::NImpl
                &&& r->Err_0.message_text() == Some(external_unsupported_message())
                &&& final(trace).summary() == old(trace).summary()
            },
        },
{
    match reference {
        ReferenceTarget::Cell { sheet, row, col } => Ok(
            ResolvedReference::Reference(ReferenceValue::Cell(CellId::new(sheet_name(sheet, current_sheet), *row, *col))),
        ),
        ReferenceTarget::Range { sheet, start_row, start_col, end_row, end_col } => {
            let r1 = bound(start_row, 1);
            let c1 = bound(start_col, 1);
            let range = RangeDescriptor::new(
                sheet_name(sheet, current_sheet),
                r1,
                c1,
                bound(end_row, r1),
                bound(end_col, c1),
            );
            Ok(ResolvedReference::Reference(range_reference(trace, reader, range)))
        },
        ReferenceTarget::NamedRange(name) => match name_resolution(names, trace, reader, name.as_str(), current_sheet) {
            Ok(v) => Ok(v),
            Err(kind) => Err(EvalError { kind, message: None }),
        },
        ReferenceTarget::Table(name) => {
            let mut m = string_of("table reference unsupported in POC: ");
            push_str(&mut m, name.as_str());
            proof {
                reveal_strlit("table reference unsupported in POC: ");
            }
            Err(EvalError { kind: ErrorKind::NImpl, message: Some(m) })
        },
        _ => {
            proof {
                reveal_strlit("external or 3D reference unsupported in POC");
            }
            Err(
                EvalError {
                    kind: ErrorKind::NImpl,
                    message: Some(string_of("external or 3D reference unsupported in POC")),
                },
            )
        },
    }
}

/// Resolves a name that must stand for a reference: the reference, or
/// `#VALUE!` when the name holds a constant or a formula, or `#NAME?` when it
/// is not defined. The reads are recorded as by [`name_resolution`].
pub fn resolve_name_reference(
    names: &NameRegistry,
    trace: &mut TraceReport,
    reader: &CellId,
    name: &str,
    current_sheet: &str,
) -> (r: Result<ReferenceValue, ErrorKind>)
    requires
        names.wf(),
        old(trace).wf(),
    ensures
        final(trace).wf(),
        match resolve_spec(names.records(), name@, current_sheet@) {
            None => r == Err::<ReferenceValue, ErrorKind>(ErrorKind::Name) && final(trace).summary()
                == old(trace).summary(),
            Some(rec) => {
                &&& final(trace).summary() == resolution_summary(old(trace).summary(), reader@, rec)
                &&& match rec.definition {
                    NameDefinition::Cell(c) => r matches Ok(x) && x@ == ReferenceView::Cell(c@),
                    NameDefinition::Range(g) => r matches Ok(x) && x@ == ReferenceView::Range(g@),
                    NameDefinition::Spill(s) => r matches Ok(x) && x@ == ReferenceView::Spill(s@),
                    _ => r == Err::<ReferenceValue, ErrorKind>(ErrorKind::Value),
                }
            },
        },
{
    match name_resolution(names, trace, reader, name, current_sheet) {
        Err(e) => Err(e),
        Ok(ResolvedReference::Reference(reference)) => Ok(reference),
        Ok(_) => Err(ErrorKind::Value),
    }
}

} // verus!
