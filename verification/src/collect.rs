//! The static dependencies of a formula: every cell, range, name, spill shape
//! and effect its value may depend on, read off the expression tree with
//! defined names expanded, sorted and without repetition.
use vstd::prelude::*;
use crate::address::{CellId, CellView, RangeDescriptor, cell_range, normalized_range, spill_range};
use crate::dependency::{DependencyDescriptor, DependencyView, EffectKey, EffectView, normalize_function_name, normalized_function_name};
use crate::order::{insert_sorted, lemma_is_sorted_list, sorted_by_key, sorted_list, value_set, views};
use crate::formula::{FormulaAst, ReferenceTarget};
use crate::names::{NameDefinition, NameDefinitionRecord, NameKeyView, NameRegistry, resolve_spec};
use crate::text::{push_str, string_of, text_equal};

verus! {

/// The part an argument plays for the function around it: a selector
/// (an index or offset argument) depends on a cell's value as a position.
#[derive(Clone, Copy, Debug, PartialEq, Eq)]
pub enum DependencyRole {
    Normal,
    Selector,
    Source,
}

/// Both dependency sets, when both expansions finished.
pub open spec fn join(a: Option<Set<DependencyView>>, b: Option<Set<DependencyView>>) -> Option<
    Set<DependencyView>,
> {
    match (a, b) {
        (Some(x), Some(y)) => Some(x.union(y)),
        _ => None,
    }
}

/// The sheet a reference names, or the formula's own sheet.
pub open spec fn sheet_or(sheet: Option<String>, current: Seq<char>) -> Seq<char> {
    match sheet {
        Some(s) => s@,
        None => current,
    }
}

/// The effect recorded for dynamic references (OFFSET, INDIRECT): a selector
/// at row and column 0 of the formula's sheet.
pub open spec fn dynamic_placeholder(current: Seq<char>) -> DependencyView {
    DependencyView::Effect(EffectView::DynamicSelector(CellView { sheet: current, row: 0, col: 0 }))
}

/// The dependencies of a reference that is not a defined name.
pub open spec fn target_dependencies(current: Seq<char>, t: ReferenceTarget, role: DependencyRole) -> Set<
    DependencyView,
> {
    match t {
        ReferenceTarget::Cell { sheet, row, col } => {
            let c = CellView { sheet: sheet_or(sheet, current), row, col };
            if role is Selector {
                set![DependencyView::Selector(c)]
            } else {
                set![DependencyView::Cell(c)]
            }
        },
        ReferenceTarget::Range { sheet, start_row, start_col, end_row, end_col } => {
            let r1 = start_row.unwrap_or(1);
            let c1 = start_col.unwrap_or(1);
            set![
                DependencyView::Range(
                    normalized_range(
                        sheet_or(sheet, current),
                        r1,
                        c1,
                        end_row.unwrap_or(r1),
                        end_col.unwrap_or(c1),
                    ),
                ),
            ]
        },
        ReferenceTarget::Table(name) => set![
            DependencyView::Effect(EffectView::External("table:"@ + name@)),
        ],
        ReferenceTarget::NamedRange(_) => Set::empty(),
        _ => set![DependencyView::Effect(EffectView::External("unsupported_reference"@))],
    }
}

/// What a name's definition contributes besides the name itself, when it is
/// not a formula.
pub open spec fn definition_dependencies(d: NameDefinition) -> Set<DependencyView> {
    match d {
        NameDefinition::Cell(c) => set![DependencyView::Range(cell_range(c@))],
        NameDefinition::Range(r) => set![DependencyView::Range(r@)],
        NameDefinition::Spill(s) => set![
            DependencyView::Shape(s@),
            DependencyView::Range(spill_range(s@)),
        ],
        _ => Set::empty(),
    }
}

/// The dependencies of an expression in a role, expanding formula names at
/// most `fuel` deep; `None` when that is not deep enough.
pub open spec fn node_dependencies(
    names: Map<NameKeyView, NameDefinitionRecord>,
    current: Seq<char>,
    node: FormulaAst,
    role: DependencyRole,
    fuel: nat,
) -> Option<Set<DependencyView>>
    decreases fuel, node,
{
    match node {
        FormulaAst::Reference(t) => match t {
            ReferenceTarget::NamedRange(name) => match resolve_spec(names, name@, current) {
                None => Some(Set::empty()),
                Some(rec) => {
                    let own = set![DependencyView::Name(rec.id.0)];
                    match rec.definition {
                        NameDefinition::Formula { ast } => if fuel == 0 {
                            None
                        } else {
                            join(
                                Some(own),
                                node_dependencies(
                                    names,
                                    current,
                                    ast,
                                    DependencyRole::Normal,
                                    (fuel - 1) as nat,
                                ),
                            )
                        },
                        NameDefinition::DynamicFormula { ast } => if fuel == 0 {
                            None
                        } else {
                            join(
                                Some(own),
                                node_dependencies(
                                    names,
                                    current,
                                    ast,
                                    DependencyRole::Normal,
                                    (fuel - 1) as nat,
                                ),
                            )
                        },
                        d => Some(own.union(definition_dependencies(d))),
                    }
                },
            },
            _ => Some(target_dependencies(current, t, role)),
        },
        FormulaAst::UnaryOp { op: _, expr } => node_dependencies(names, current, *expr, role, fuel),
        FormulaAst::BinaryOp { op: _, left, right } => join(
            node_dependencies(names, current, *left, role, fuel),
            node_dependencies(names, current, *right, role, fuel),
        ),
        FormulaAst::Function { name, args } => {
            let n = normalized_function_name(name@);
            let a = args@;
            if n == "INDEX"@ || n == "OFFSET"@ {
                let positional = if a.len() == 0 {
                    Some(Set::empty())
                } else {
                    join(
                        node_dependencies(names, current, a[0], DependencyRole::Source, fuel),
                        list_dependencies(
                            names,
                            current,
                            a.drop_first(),
                            DependencyRole::Selector,
                            fuel,
                        ),
                    )
                };
                if n == "OFFSET"@ {
                    join(positional, Some(set![dynamic_placeholder(current)]))
                } else {
                    positional
                }
            } else if n == "INDIRECT"@ {
                join(
                    list_dependencies(names, current, a, DependencyRole::Selector, fuel),
                    Some(set![dynamic_placeholder(current)]),
                )
            } else if n == "SUM"@ || n == "MIN"@ || n == "SUMPRODUCT"@ {
                list_dependencies(names, current, a, DependencyRole::Source, fuel)
            } else {
                list_dependencies(names, current, a, role, fuel)
            }
        },
        FormulaAst::Call { callee, args } => join(
            node_dependencies(names, current, *callee, role, fuel),
            list_dependencies(names, current, args@, role, fuel),
        ),
        FormulaAst::Array(rows) => rows_dependencies(names, current, rows@, role, fuel),
        _ => Some(Set::empty()),
    }
}

/// The dependencies of a list of expressions in one role.
pub open spec fn list_dependencies(
    names: Map<NameKeyView, NameDefinitionRecord>,
    current: Seq<char>,
    nodes: Seq<FormulaAst>,
    role: DependencyRole,
    fuel: nat,
) -> Option<Set<DependencyView>>
    decreases fuel, nodes,
{
    if nodes.len() == 0 {
        Some(Set::empty())
    } else {
        join(
            list_dependencies(names, current, nodes.drop_last(), role, fuel),
            node_dependencies(names, current, nodes.last(), role, fuel),
        )
    }
}

/// The dependencies of the rows of an array constant.
pub open spec fn rows_dependencies(
    names: Map<NameKeyView, NameDefinitionRecord>,
    current: Seq<char>,
    rows: Seq<Vec<FormulaAst>>,
    role: DependencyRole,
    fuel: nat,
) -> Option<Set<DependencyView>>
    decreases fuel, rows,
{
    if rows.len() == 0 {
        Some(Set::empty())
    } else {
        join(
            rows_dependencies(names, current, rows.drop_last(), role, fuel),
            list_dependencies(names, current, rows.last()@, role, fuel),
        )
    }
}

proof fn lemma_list_prefix(
    names: Map<NameKeyView, NameDefinitionRecord>,
    current: Seq<char>,
    s: Seq<FormulaAst>,
    role: DependencyRole,
    fuel: nat,
    k: int,
)
    requires
        list_dependencies(names, current, s, role, fuel) is Some,
        0 <= k <= s.len(),
    ensures
        list_dependencies(names, current, s.subrange(0, k), role, fuel) is Some,
    decreases s.len(),
{
    if k == s.len() {
        assert(s.subrange(0, k) =~= s);
    } else {
        lemma_list_prefix(names, current, s.drop_last(), role, fuel, k);
        assert(s.drop_last().subrange(0, k) =~= s.subrange(0, k));
    }
}

proof fn lemma_rows_prefix(
    names: Map<NameKeyView, NameDefinitionRecord>,
    current: Seq<char>,
    s: Seq<Vec<FormulaAst>>,
    role: DependencyRole,
    fuel: nat,
    k: int,
)
    requires
        rows_dependencies(names, current, s, role, fuel) is Some,
        0 <= k <= s.len(),
    ensures
        rows_dependencies(names, current, s.subrange(0, k), role, fuel) is Some,
    decreases s.len(),
{
    if k == s.len() {
        assert(s.subrange(0, k) =~= s);
    } else {
        lemma_rows_prefix(names, current, s.drop_last(), role, fuel, k);
        assert(s.drop_last().subrange(0, k) =~= s.subrange(0, k));
    }
}

fn add_dependency(out: &mut Vec<DependencyDescriptor>, d: DependencyDescriptor)
    requires
        sorted_by_key::<DependencyDescriptor>(views(old(out)@)),
    ensures
        sorted_by_key::<DependencyDescriptor>(views(final(out)@)),
        value_set(final(out)@) == value_set(old(out)@).union(set![d@]),
{
    let ghost dv = d@;
    insert_sorted(out, d);
    assert(value_set(old(out)@).insert(dv) =~= value_set(old(out)@).union(set![dv]));
}

fn collect_target(
    t: &ReferenceTarget,
    current: &str,
    role: DependencyRole,
    out: &mut Vec<DependencyDescriptor>,
)
    requires
        sorted_by_key::<DependencyDescriptor>(views(old(out)@)),
    ensures
        sorted_by_key::<DependencyDescriptor>(views(final(out)@)),
        value_set(final(out)@) == value_set(old(out)@).union(
            target_dependencies(current@, *t, role),
        ),
{
    match t {
        ReferenceTarget::Cell { sheet, row, col } => {
            let sheet_name = match sheet {
                Some(s) => s.clone(),
                None => string_of(current),
            };
            let cell = CellId { sheet: sheet_name, row: *row, col: *col };
            if matches!(role, DependencyRole::Selector) {
                add_dependency(out, DependencyDescriptor::Selector(cell));
            } else {
                add_dependency(out, DependencyDescriptor::Cell(cell));
            }
        },
        ReferenceTarget::Range { sheet, start_row, start_col, end_row, end_col } => {
            let sheet_name = match sheet {
                Some(s) => s.clone(),
                None => string_of(current),
            };
            let r1: u32 = match start_row {
                Some(v) => *v,
                None => 1,
            };
            let c1: u32 = match start_col {
                Some(v) => *v,
                None => 1,
            };
            let r2: u32 = match end_row {
                Some(v) => *v,
                None => r1,
            };
            let c2: u32 = match end_col {
                Some(v) => *v,
                None => c1,
            };
            add_dependency(
                out,
                DependencyDescriptor::Range(RangeDescriptor::new(sheet_name, r1, c1, r2, c2)),
            );
        },
        ReferenceTarget::Table(name) => {
            let mut text = string_of("table:");
            push_str(&mut text, name.as_str());
            add_dependency(out, DependencyDescriptor::Effect(EffectKey::External(text)));
        },
        ReferenceTarget::NamedRange(_) => {
            assert(value_set(old(out)@).union(Set::empty()) =~= value_set(old(out)@));
        },
        _ => {
            let text = string_of("unsupported_reference");
            add_dependency(out, DependencyDescriptor::Effect(EffectKey::External(text)));
        },
    }
}

fn collect_node(
    node: &FormulaAst,
    current: &str,
    names: &NameRegistry,
    role: DependencyRole,
    out: &mut Vec<DependencyDescriptor>,
    Ghost(fuel): Ghost<nat>,
)
    requires
        names.wf(),
        sorted_by_key::<DependencyDescriptor>(views(old(out)@)),
        node_dependencies(names.records(), current@, *node, role, fuel) is Some,
    ensures
        sorted_by_key::<DependencyDescriptor>(views(final(out)@)),
        value_set(final(out)@) == value_set(old(out)@).union(
            node_dependencies(names.records(), current@, *node, role, fuel).unwrap(),
        ),
    decreases fuel, node,
{
    let ghost start = value_set(out@);
    let ghost names_map = names.records();
    match node {
        FormulaAst::Reference(t) => match t {
            ReferenceTarget::NamedRange(name) => match names.resolve(name.as_str(), current) {
                None => {
                    assert(start.union(Set::empty()) =~= start);
                },
                Some(rec) => {
                    add_dependency(out, DependencyDescriptor::Name(rec.id));
                    let ghost after_name = value_set(out@);
                    match &rec.definition {
                        NameDefinition::Formula { ast } => {
                            collect_node(ast, current, names, DependencyRole::Normal, out, Ghost((fuel - 1) as nat));
                        },
                        NameDefinition::DynamicFormula { ast } => {
                            collect_node(ast, current, names, DependencyRole::Normal, out, Ghost((fuel - 1) as nat));
                        },
                        NameDefinition::Cell(c) => {
                            add_dependency(out, DependencyDescriptor::Range(RangeDescriptor::from_cell(c)));
                        },
                        NameDefinition::Range(r) => {
                            add_dependency(out, DependencyDescriptor::Range(r.duplicate()));
                        },
                        NameDefinition::Spill(sp) => {
                            add_dependency(out, DependencyDescriptor::Shape(sp.duplicate()));
                            add_dependency(out, DependencyDescriptor::Range(sp.range()));
                        },
                        NameDefinition::Constant(_) => {},
                    }
                    let ghost full = node_dependencies(names_map, current@, *node, role, fuel).unwrap();
                    assert(value_set(out@) =~= start.union(full));
                },
            },
            _ => {
                collect_target(t, current, role, out);
            },
        },
        FormulaAst::UnaryOp { op: _, expr } => {
            collect_node(expr, current, names, role, out, Ghost(fuel));
        },
        FormulaAst::BinaryOp { op: _, left, right } => {
            collect_node(left, current, names, role, out, Ghost(fuel));
            collect_node(right, current, names, role, out, Ghost(fuel));
            assert(value_set(out@) =~= start.union(
                node_dependencies(names_map, current@, *node, role, fuel).unwrap(),
            ));
        },
        FormulaAst::Function { name, args } => {
            let n = normalize_function_name(name.as_str());
            let is_index = text_equal(n.as_str(), "INDEX");
            let is_offset = text_equal(n.as_str(), "OFFSET");
            if is_index || is_offset {
                if args.len() > 0 {
                    collect_node(&args[0], current, names, DependencyRole::Source, out, Ghost(fuel));
                    assert(args@.drop_first() =~= args@.subrange(1, args@.len() as int));
                    collect_list(args, 1, current, names, DependencyRole::Selector, out, Ghost(fuel));
                } else {
                    assert(start.union(Set::empty()) =~= start);
                }
                if is_offset {
                    add_dependency(out, DependencyDescriptor::Effect(EffectKey::DynamicSelector(
                        CellId { sheet: string_of(current), row: 0, col: 0 },
                    )));
                }
                assert(value_set(out@) =~= start.union(
                    node_dependencies(names_map, current@, *node, role, fuel).unwrap(),
                ));
            } else if text_equal(n.as_str(), "INDIRECT") {
                assert(args@.subrange(0, args@.len() as int) =~= args@);
                collect_list(args, 0, current, names, DependencyRole::Selector, out, Ghost(fuel));
                add_dependency(out, DependencyDescriptor::Effect(EffectKey::DynamicSelector(
                    CellId { sheet: string_of(current), row: 0, col: 0 },
                )));
                assert(value_set(out@) =~= start.union(
                    node_dependencies(names_map, current@, *node, role, fuel).unwrap(),
                ));
            } else if text_equal(n.as_str(), "SUM") || text_equal(n.as_str(), "MIN") || text_equal(
                n.as_str(),
                "SUMPRODUCT",
            ) {
                assert(args@.subrange(0, args@.len() as int) =~= args@);
                collect_list(args, 0, current, names, DependencyRole::Source, out, Ghost(fuel));
            } else {
                assert(args@.subrange(0, args@.len() as int) =~= args@);
                collect_list(args, 0, current, names, role, out, Ghost(fuel));
            }
        },
        FormulaAst::Call { callee, args } => {
            collect_node(callee, current, names, role, out, Ghost(fuel));
            assert(args@.subrange(0, args@.len() as int) =~= args@);
            collect_list(args, 0, current, names, role, out, Ghost(fuel));
            assert(value_set(out@) =~= start.union(
                node_dependencies(names_map, current@, *node, role, fuel).unwrap(),
            ));
        },
        FormulaAst::Array(rows) => {
            collect_rows(rows, current, names, role, out, Ghost(fuel));
        },
        _ => {
            assert(start.union(Set::empty()) =~= start);
        },
    }
}

fn collect_list(
    nodes: &Vec<FormulaAst>,
    from: usize,
    current: &str,
    names: &NameRegistry,
    role: DependencyRole,
    out: &mut Vec<DependencyDescriptor>,
    Ghost(fuel): Ghost<nat>,
)
    requires
        names.wf(),
        from <= nodes@.len(),
        sorted_by_key::<DependencyDescriptor>(views(old(out)@)),
        list_dependencies(names.records(), current@, nodes@.subrange(from as int, nodes@.len() as int), role, fuel) is Some,
    ensures
        sorted_by_key::<DependencyDescriptor>(views(final(out)@)),
        value_set(final(out)@) == value_set(old(out)@).union(
            list_dependencies(names.records(), current@, nodes@.subrange(from as int, nodes@.len() as int), role, fuel).unwrap(),
        ),
    decreases fuel, nodes,
{
    let ghost start = value_set(out@);
    let ghost names_map = names.records();
    let ghost whole = nodes@.subrange(from as int, nodes@.len() as int);
    let mut i = from;
    assert(nodes@.subrange(from as int, from as int) =~= Seq::<FormulaAst>::empty());
    assert(start.union(Set::empty()) =~= start);
    while i < nodes.len()
        invariant
            names.wf(),
            names_map == names.records(),
            from <= i <= nodes@.len(),
            whole == nodes@.subrange(from as int, nodes@.len() as int),
            list_dependencies(names_map, current@, whole, role, fuel) is Some,
            sorted_by_key::<DependencyDescriptor>(views(out@)),
            list_dependencies(names_map, current@, nodes@.subrange(from as int, i as int), role, fuel) is Some,
            value_set(out@) == start.union(
                list_dependencies(names_map, current@, nodes@.subrange(from as int, i as int), role, fuel).unwrap(),
            ),
        decreases nodes@.len() - i,
    {
        let ghost before = nodes@.subrange(from as int, i as int);
        let ghost upto = nodes@.subrange(from as int, i + 1);
        proof {
            lemma_list_prefix(names_map, current@, whole, role, fuel, i + 1 - from);
            assert(whole.subrange(0, i + 1 - from) =~= upto);
            assert(upto.drop_last() =~= before);
            assert(upto.last() == nodes@[i as int]);
        }
        collect_node(&nodes[i], current, names, role, out, Ghost(fuel));
        assert(value_set(out@) =~= start.union(
            list_dependencies(names_map, current@, upto, role, fuel).unwrap(),
        ));
        i = i + 1;
    }
}

fn collect_rows(
    rows: &Vec<Vec<FormulaAst>>,
    current: &str,
    names: &NameRegistry,
    role: DependencyRole,
    out: &mut Vec<DependencyDescriptor>,
    Ghost(fuel): Ghost<nat>,
)
    requires
        names.wf(),
        sorted_by_key::<DependencyDescriptor>(views(old(out)@)),
        rows_dependencies(names.records(), current@, rows@, role, fuel) is Some,
    ensures
        sorted_by_key::<DependencyDescriptor>(views(final(out)@)),
        value_set(final(out)@) == value_set(old(out)@).union(
            rows_dependencies(names.records(), current@, rows@, role, fuel).unwrap(),
        ),
    decreases fuel, rows,
{
    let ghost start = value_set(out@);
    let ghost names_map = names.records();
    let mut i: usize = 0;
    assert(rows@.subrange(0, 0) =~= Seq::<Vec<FormulaAst>>::empty());
    assert(start.union(Set::empty()) =~= start);
    while i < rows.len()
        invariant
            names.wf(),
            names_map == names.records(),
            i <= rows@.len(),
            rows_dependencies(names_map, current@, rows@, role, fuel) is Some,
            sorted_by_key::<DependencyDescriptor>(views(out@)),
            rows_dependencies(names_map, current@, rows@.subrange(0, i as int), role, fuel) is Some,
            value_set(out@) == start.union(
                rows_dependencies(names_map, current@, rows@.subrange(0, i as int), role, fuel).unwrap(),
            ),
        decreases rows@.len() - i,
    {
        let ghost before = rows@.subrange(0, i as int);
        let ghost upto = rows@.subrange(0, i + 1);
        proof {
            lemma_rows_prefix(names_map, current@, rows@, role, fuel, i + 1);
            assert(upto.drop_last() =~= before);
            assert(upto.last() == rows@[i as int]);
        }
        let row = &rows[i];
        assert(row@.subrange(0, row@.len() as int) =~= row@);
        collect_list(row, 0, current, names, role, out, Ghost(fuel));
        assert(value_set(out@) =~= start.union(
            rows_dependencies(names_map, current@, upto, role, fuel).unwrap(),
        ));
        i = i + 1;
    }
    assert(rows@.subrange(0, rows@.len() as int) =~= rows@);
}

/// Whether expanding the defined names in `ast` comes to an end (it does not
/// when a name's formula refers back to itself).
pub open spec fn expansion_finishes(
    names: Map<NameKeyView, NameDefinitionRecord>,
    current: Seq<char>,
    ast: FormulaAst,
) -> bool {
    exists|fuel: nat| node_dependencies(names, current, ast, DependencyRole::Normal, fuel) is Some
}

/// A depth of name expansion that suffices for `ast`.
pub open spec fn expansion_depth(
    names: Map<NameKeyView, NameDefinitionRecord>,
    current: Seq<char>,
    ast: FormulaAst,
) -> nat {
    choose|fuel: nat| node_dependencies(names, current, ast, DependencyRole::Normal, fuel) is Some
}

/// Everything the value of `ast`, written on sheet `current`, may depend on.
pub open spec fn static_dependencies(
    names: Map<NameKeyView, NameDefinitionRecord>,
    current: Seq<char>,
    ast: FormulaAst,
) -> Set<DependencyView> {
    node_dependencies(
        names,
        current,
        ast,
        DependencyRole::Normal,
        expansion_depth(names, current, ast),
    ).unwrap()
}

/// The static dependencies of a formula written on `current_sheet`, sorted,
/// each once.
pub fn collect_invalidation_dependencies(
    ast: &FormulaAst,
    current_sheet: &str,
    names: &NameRegistry,
) -> (r: Vec<DependencyDescriptor>)
    requires
        names.wf(),
        expansion_finishes(names.records(), current_sheet@, *ast),
    ensures
        sorted_by_key::<DependencyDescriptor>(views(r@)),
        value_set(r@) == static_dependencies(names.records(), current_sheet@, *ast),
        views(r@) == sorted_list::<DependencyDescriptor>(static_dependencies(names.records(), current_sheet@, *ast)),
{
    let ghost fuel = expansion_depth(names.records(), current_sheet@, *ast);
    let mut out: Vec<DependencyDescriptor> = Vec::new();
    assert(value_set(out@) =~= Set::<DependencyView>::empty());
    collect_node(ast, current_sheet, names, DependencyRole::Normal, &mut out, Ghost(fuel));
    assert(value_set(out@) =~= static_dependencies(names.records(), current_sheet@, *ast));
    proof {
        lemma_is_sorted_list::<DependencyDescriptor>(views(out@));
    }
    out
}

} // verus!
