//! The analysis of a cycle candidate's edge dump: member addresses,
//! counters, and the metrics of the graph the dump's edges form.
use vstd::prelude::*;
use crate::graph::{Edge, all_edges_in_range, all_kept, components, edge_graph, edges_in_range, goal_reachable, is_walk, lemma_edge_graph_len, lists_view, path_between, scc_partition, topologically_ordered, kosaraju_roots};
use crate::keys::{Filed, filed_map, filed_sorted, file_item, find_filed};
use crate::order::{insert_sorted, lemma_sorted_set_len, sorted_by_key, sorted_contains, value_set, views};
use crate::text::{ascii_upper, chars_of, push_chars, push_str, string_of, text_equal, to_ascii_upper_char};
use crate::trace::seconds;

verus! {

/// The position of the first `c` in `s`, if there is one.
pub open spec fn first_index_of(s: Seq<char>, c: char) -> Option<int> {
    if s.contains(c) {
        Some(choose|i: int| 0 <= i < s.len() && s[i] == c && forall|j: int| 0 <= j < i ==> s[j] != c)
    } else {
        None
    }
}

/// `s` without the characters `c` at its start.
pub open spec fn trim_start_char(s: Seq<char>, c: char) -> Seq<char>
    decreases s.len(),
{
    if s.len() > 0 && s[0] == c {
        trim_start_char(s.drop_first(), c)
    } else {
        s
    }
}

/// `s` without the characters `c` at its end.
pub open spec fn trim_end_char(s: Seq<char>, c: char) -> Seq<char>
    decreases s.len(),
{
    if s.len() > 0 && s.last() == c {
        trim_end_char(s.drop_last(), c)
    } else {
        s
    }
}

/// `s` without the characters `c` at its start and at its end.
pub open spec fn trim_char(s: Seq<char>, c: char) -> Seq<char> {
    trim_end_char(trim_start_char(s, c), c)
}

/// `s` with each pair of apostrophes, from left to right, made one.
pub open spec fn unquote_pairs(s: Seq<char>) -> Seq<char>
    decreases s.len(),
{
    if s.len() >= 2 && s[0] == '\'' && s[1] == '\'' {
        seq!['\''] + unquote_pairs(s.subrange(2, s.len() as int))
    } else if s.len() == 0 {
        s
    } else {
        seq![s[0]] + unquote_pairs(s.drop_first())
    }
}

/// `s` without its `$` signs.
pub open spec fn without_dollars(s: Seq<char>) -> Seq<char>
    decreases s.len(),
{
    if s.len() == 0 {
        s
    } else if s.last() == '$' {
        without_dollars(s.drop_last())
    } else {
        without_dollars(s.drop_last()).push(s.last())
    }
}

/// The normal form of an address: a sheet part (before the first `!`)
/// without enclosing apostrophes, with doubled apostrophes made single, and
/// upper-cased; the cell part without `$` signs and upper-cased.
pub open spec fn normalized_address(a: Seq<char>) -> Seq<char> {
    match first_index_of(a, '!') {
        Some(i) => ascii_upper(unquote_pairs(trim_char(a.subrange(0, i), '\''))) + seq!['!'] + ascii_upper(
            without_dollars(a.subrange(i + 1, a.len() as int)),
        ),
        None => ascii_upper(without_dollars(a)),
    }
}

/// The upper-cased sheet part of an address, if it has one.
pub open spec fn address_sheet(a: Seq<char>) -> Option<Seq<char>> {
    match first_index_of(a, '!') {
        Some(i) => Some(ascii_upper(a.subrange(0, i))),
        None => None,
    }
}

/// The position of the first `c`, if any.
fn find_char(s: &Vec<char>, c: char) -> (r: Option<usize>)
    ensures
        r matches Some(i) ==> first_index_of(s@, c) == Some(i as int) && i < s@.len() && s@[i as int] == c,
        r is None ==> first_index_of(s@, c) is None,
{
    let mut i: usize = 0;
    while i < s.len()
        invariant
            i <= s@.len(),
            forall|j: int| 0 <= j < i ==> s@[j] != c,
        decreases s.len() - i,
    {
        if s[i] == c {
            let ghost w = choose|k: int| 0 <= k < s@.len() && s@[k] == c && forall|j: int| 0 <= j < k ==> s@[j] != c;
            proof {
                assert(s@.contains(c));
                if w < i {
                    assert(s@[w] != c);
                }
                if w > i {
                    assert(s@[i as int] != c);
                }
            }
            return Some(i);
        }
        i = i + 1;
    }
    assert(!s@.contains(c));
    None
}

/// The characters from `from` up to `to`.
fn slice_chars(s: &Vec<char>, from: usize, to: usize) -> (r: Vec<char>)
    requires
        from <= to <= s@.len(),
    ensures
        r@ == s@.subrange(from as int, to as int),
{
    let mut out: Vec<char> = Vec::new();
    let mut i = from;
    while i < to
        invariant
            from <= i <= to <= s@.len(),
            out@ == s@.subrange(from as int, i as int),
        decreases to - i,
    {
        out.push(s[i]);
        assert(out@ =~= s@.subrange(from as int, i + 1));
        i = i + 1;
    }
    out
}

proof fn lemma_trim_start(s: Seq<char>, c: char, a: int)
    requires
        0 <= a <= s.len(),
        forall|j: int| 0 <= j < a ==> s[j] == c,
        a == s.len() || s[a] != c,
    ensures
        trim_start_char(s, c) == s.subrange(a, s.len() as int),
    decreases s.len(),
{
    if a > 0 {
        assert(s.drop_first().subrange(a - 1, s.len() - 1) =~= s.subrange(a, s.len() as int));
        lemma_trim_start(s.drop_first(), c, a - 1);
    } else {
        assert(s.subrange(0, s.len() as int) =~= s);
    }
}

proof fn lemma_trim_end(s: Seq<char>, c: char, b: int)
    requires
        0 <= b <= s.len(),
        forall|j: int| b <= j < s.len() ==> s[j] == c,
        b == 0 || s[b - 1] != c,
    ensures
        trim_end_char(s, c) == s.subrange(0, b),
    decreases s.len(),
{
    if b < s.len() {
        assert(s.drop_last().subrange(0, b) =~= s.subrange(0, b));
        lemma_trim_end(s.drop_last(), c, b);
    } else {
        assert(s.subrange(0, b) =~= s);
    }
}

/// The characters of `s` between its leading and trailing runs of `c`.
fn trim_chars(s: &Vec<char>, c: char) -> (r: Vec<char>)
    ensures
        r@ == trim_char(s@, c),
{
    let mut a: usize = 0;
    while a < s.len() && s[a] == c
        invariant
            a <= s@.len(),
            forall|j: int| 0 <= j < a ==> s@[j] == c,
        decreases s.len() - a,
    {
        a = a + 1;
    }
    let mut b: usize = s.len();
    while b > a && s[b - 1] == c
        invariant
            a <= b <= s@.len(),
            forall|j: int| b <= j < s@.len() ==> s@[j] == c,
        decreases b,
    {
        b = b - 1;
    }
    proof {
        lemma_trim_start(s@, c, a as int);
        let t = s@.subrange(a as int, s@.len() as int);
        assert forall|j: int| b - a <= j < t.len() implies t[j] == c by {
            assert(t[j] == s@[a + j]);
        }
        if b > a {
            assert(t[b - a - 1] == s@[b - 1]);
        }
        lemma_trim_end(t, c, b - a);
        assert(t.subrange(0, b - a) =~= s@.subrange(a as int, b as int));
    }
    slice_chars(s, a, b)
}

/// Each pair of apostrophes made one (see [`unquote_pairs`]).
fn unquote_chars(s: &Vec<char>) -> (r: Vec<char>)
    ensures
        r@ == unquote_pairs(s@),
{
    let mut out: Vec<char> = Vec::new();
    let mut i: usize = 0;
    assert(s@.subrange(0, s@.len() as int) =~= s@);
    while i < s.len()
        invariant
            i <= s@.len(),
            out@ + unquote_pairs(s@.subrange(i as int, s@.len() as int)) == unquote_pairs(s@),
        decreases s.len() - i,
    {
        let ghost suffix = s@.subrange(i as int, s@.len() as int);
        if i + 1 < s.len() && s[i] == '\'' && s[i + 1] == '\'' {
            assert(suffix[0] == '\'' && suffix[1] == '\'');
            assert(suffix.subrange(2, suffix.len() as int) =~= s@.subrange(i + 2, s@.len() as int));
            out.push('\'');
            assert(out@ + unquote_pairs(s@.subrange(i + 2, s@.len() as int)) =~= unquote_pairs(s@));
            i = i + 2;
        } else {
            assert(suffix[0] == s@[i as int]);
            assert(!(suffix.len() >= 2 && suffix[0] == '\'' && suffix[1] == '\''));
            assert(suffix.drop_first() =~= s@.subrange(i + 1, s@.len() as int));
            out.push(s[i]);
            assert(out@ + unquote_pairs(s@.subrange(i + 1, s@.len() as int)) =~= unquote_pairs(s@));
            i = i + 1;
        }
    }
    assert(s@.subrange(i as int, s@.len() as int) =~= Seq::<char>::empty());
    assert(out@ + Seq::<char>::empty() =~= out@);
    out
}

/// The characters without `$` signs.
fn drop_dollars(s: &Vec<char>) -> (r: Vec<char>)
    ensures
        r@ == without_dollars(s@),
{
    let mut out: Vec<char> = Vec::new();
    let mut i: usize = 0;
    while i < s.len()
        invariant
            i <= s@.len(),
            out@ == without_dollars(s@.subrange(0, i as int)),
        decreases s.len() - i,
    {
        assert(s@.subrange(0, i + 1).drop_last() =~= s@.subrange(0, i as int));
        if s[i] != '$' {
            out.push(s[i]);
        }
        i = i + 1;
    }
    assert(s@.subrange(0, i as int) =~= s@);
    out
}

/// The characters upper-cased (ASCII letters only).
fn upper_chars(s: &Vec<char>) -> (r: Vec<char>)
    ensures
        r@ == ascii_upper(s@),
{
    let mut out: Vec<char> = Vec::new();
    let mut i: usize = 0;
    while i < s.len()
        invariant
            i <= s@.len(),
            out@ == ascii_upper(s@.subrange(0, i as int)),
        decreases s.len() - i,
    {
        out.push(to_ascii_upper_char(s[i]));
        assert(out@ =~= ascii_upper(s@.subrange(0, i + 1)));
        i = i + 1;
    }
    assert(s@.subrange(0, i as int) =~= s@);
    out
}

/// A `String` of the characters.
pub(crate) fn string_from(v: &Vec<char>) -> (r: String)
    ensures
        r@ == v@,
{
    let mut s = String::new();
    push_chars(&mut s, v);
    s
}

/// The normal form of an address (see [`normalized_address`]).
#[verifier::spinoff_prover]
pub fn normalize_address(address: &str) -> (r: String)
    ensures
        r@ == normalized_address(address@),
{
    let a = chars_of(address);
    match find_char(&a, '!') {
        Some(i) => {
            assert(i < a.len());
            let sheet = upper_chars(&unquote_chars(&trim_chars(&slice_chars(&a, 0, i), '\'')));
            let cell = upper_chars(&drop_dollars(&slice_chars(&a, i + 1, a.len())));
            let mut out = string_from(&sheet);
            push_chars(&mut out, &vec!['!']);
            push_chars(&mut out, &cell);
            out
        },
        None => string_from(&upper_chars(&drop_dollars(&a))),
    }
}

/// The upper-cased sheet part of an address, if it has one.
pub fn sheet_of(address: &str) -> (r: Option<String>)
    ensures
        r matches Some(s) ==> address_sheet(address@) == Some(s@),
        r is None ==> address_sheet(address@) is None,
{
    let a = chars_of(address);
    match find_char(&a, '!') {
        Some(i) => Some(string_from(&upper_chars(&slice_chars(&a, 0, i)))),
        None => None,
    }
}

/// A count filed under its label.
impl Filed for (String, u64) {
    type Key = String;

    open spec fn filed_under(v: (Seq<char>, u64)) -> Seq<char> {
        v.0
    }

    fn filing_key(&self) -> (k: &String) {
        &self.0
    }
}

/// The counts of a list of counters, by label.
pub open spec fn count_map(v: Seq<(String, u64)>) -> Map<Seq<char>, u64> {
    seconds(filed_map::<(String, u64)>(views(v)))
}

/// Counts one more of `key`: a label not counted yet starts at 1.
pub fn increment(counts: &mut Vec<(String, u64)>, key: &str)
    requires
        filed_sorted::<(String, u64)>(views(old(counts)@)),
        count_map(old(counts)@).contains_key(key@) ==> count_map(old(counts)@)[key@] < u64::MAX,
    ensures
        filed_sorted::<(String, u64)>(views(final(counts)@)),
        count_map(final(counts)@) == count_map(old(counts)@).insert(
            key@,
            if count_map(old(counts)@).contains_key(key@) {
                (count_map(old(counts)@)[key@] + 1) as u64
            } else {
                1u64
            },
        ),
{
    let label = string_of(key);
    let next: u64 = match find_filed(counts, &label) {
        Some(i) => counts[i].1 + 1,
        None => 1,
    };
    file_item(counts, (label, next));
    assert(count_map(counts@) =~= count_map(old(counts)@).insert(key@, next));
}

/// A member of a cycle candidate's edge dump.
pub struct Member {
    pub member_index: usize,
    pub address: String,
    pub normalized: String,
    pub sheet: Option<String>,
    pub dynamic: bool,
    pub volatile: bool,
    pub formula_debug: String,
}

/// The mathematical value of a [`Member`].
pub struct MemberView {
    pub member_index: usize,
    pub address: Seq<char>,
    pub normalized: Seq<char>,
    pub sheet: Option<Seq<char>>,
    pub dynamic: bool,
    pub volatile: bool,
    pub formula_debug: Seq<char>,
}

impl View for Member {
    type V = MemberView;

    open spec fn view(&self) -> MemberView {
        MemberView {
            member_index: self.member_index,
            address: self.address@,
            normalized: self.normalized@,
            sheet: match self.sheet {
                Some(s) => Some(s@),
                None => None,
            },
            dynamic: self.dynamic,
            volatile: self.volatile,
            formula_debug: self.formula_debug@,
        }
    }
}

/// The metrics of the graph the edges form among the members.
#[derive(Clone, Copy, Debug, PartialEq, Eq)]
pub struct GraphMetrics {
    pub largest_scc: usize,
    pub cyclic_scc_count: usize,
    pub original_static_members_retained: usize,
    pub main_component_mismatch_members: usize,
    pub cashflow_inputs_members: usize,
    pub cashflow_engine_members: usize,
    pub cross_sheet_cycle: bool,
    pub edge_count: usize,
}

/// Whether the member is on the sheet `name` (upper-cased, as members hold it).
pub open spec fn on_sheet(members: Seq<Member>, i: int, name: Seq<char>) -> bool {
    members[i].sheet matches Some(s) && s@ == name
}

/// Some edge leads from a node to itself.
pub open spec fn has_self_loop(edges: Seq<Edge>, v: usize) -> bool {
    exists|k: int| 0 <= k < edges.len() && #[trigger] edges[k].source == v && edges[k].target == v
}

/// A component on a cycle: more than one node, or a node with an edge to itself.
pub open spec fn is_cyclic(comp: Seq<usize>, edges: Seq<Edge>) -> bool {
    comp.len() > 1 || exists|k: int| 0 <= k < comp.len() && has_self_loop(edges, #[trigger] comp[k])
}

/// The number of cyclic components.
pub open spec fn cyclic_count(comps: Seq<Seq<usize>>, edges: Seq<Edge>) -> nat
    decreases comps.len(),
{
    if comps.len() == 0 {
        0
    } else {
        cyclic_count(comps.drop_last(), edges) + if is_cyclic(comps.last(), edges) {
            1nat
        } else {
            0nat
        }
    }
}

/// The largest component, the last of the largest when several are; none when there are none.
pub open spec fn largest_of(comps: Seq<Seq<usize>>) -> Seq<usize>
    decreases comps.len(),
{
    if comps.len() == 0 {
        Seq::empty()
    } else {
        let best = largest_of(comps.drop_last());
        if comps.last().len() >= best.len() {
            comps.last()
        } else {
            best
        }
    }
}

/// How many of the listed members are on the sheet `name`.
pub open spec fn count_on_sheet(members: Seq<Member>, list: Seq<usize>, name: Seq<char>) -> nat
    decreases list.len(),
{
    if list.len() == 0 {
        0
    } else {
        count_on_sheet(members, list.drop_last(), name) + if on_sheet(members, list.last() as int, name) {
            1nat
        } else {
            0nat
        }
    }
}

/// The normalized addresses of the listed members.
pub open spec fn normalized_of(members: Seq<Member>, list: Seq<usize>) -> Set<Seq<char>> {
    Set::new(|a: Seq<char>| exists|k: int| 0 <= k < list.len() && #[trigger] members[list[k] as int].normalized@ == a)
}

/// Two listed members are on different sheets.
pub open spec fn spans_sheets(members: Seq<Member>, comp: Seq<usize>) -> bool {
    exists|a: int, b: int|
        #![trigger comp[a], comp[b]]
        0 <= a < comp.len() && 0 <= b < comp.len() && members[comp[a] as int].sheet is Some && members[comp[b] as int].sheet is Some
            && members[comp[a] as int].sheet->0@ != members[comp[b] as int].sheet->0@
}

/// The metrics of a partition of the members into components.
pub open spec fn metrics_of(
    members: Seq<Member>,
    edges: Seq<Edge>,
    comps: Seq<Seq<usize>>,
    original_static: Set<Seq<char>>,
    mismatches: Set<Seq<char>>,
) -> GraphMetrics {
    let largest = largest_of(comps);
    GraphMetrics {
        largest_scc: largest.len() as usize,
        cyclic_scc_count: cyclic_count(comps, edges) as usize,
        original_static_members_retained: normalized_of(members, largest).intersect(original_static).len() as usize,
        main_component_mismatch_members: normalized_of(members, largest).intersect(mismatches).len() as usize,
        cashflow_inputs_members: count_on_sheet(members, largest, "CASHFLOW INPUTS"@) as usize,
        cashflow_engine_members: count_on_sheet(members, largest, "CASHFLOW ENGINE"@) as usize,
        cross_sheet_cycle: exists|i: int|
            0 <= i < comps.len() && is_cyclic(#[trigger] comps[i], edges) && spans_sheets(members, comps[i]),
        edge_count: edges.len() as usize,
    }
}

/// `m` is the metrics of the members' partition into the strongly connected
/// components of the edges' graph, listed in the order `components` finds
/// them: the `i`-th holds the `i`-th of [`kosaraju_roots`] (a topological
/// order); where several components are equally largest, the largest is the
/// last of them in that list.
pub open spec fn metrics_hold(
    members: Seq<Member>,
    edges: Seq<Edge>,
    original_static: Set<Seq<char>>,
    mismatches: Set<Seq<char>>,
    m: GraphMetrics,
) -> bool {
    exists|comps: Seq<Seq<usize>>|
        scc_partition(edge_graph(members.len() as nat, edges, all_kept(edges)), comps) && topologically_ordered(
            edge_graph(members.len() as nat, edges, all_kept(edges)),
            comps,
        ) && comps.len() == kosaraju_roots(edge_graph(members.len() as nat, edges, all_kept(edges))).len() && (
        forall|i: int|
            0 <= i < comps.len() ==> #[trigger] comps[i].contains(
                kosaraju_roots(edge_graph(members.len() as nat, edges, all_kept(edges)))[i],
            )) && m == metrics_of(
            members,
            edges,
            comps,
            original_static,
            mismatches,
        )
}

/// Which nodes have an edge to themselves.
fn self_loops(node_count: usize, edges: &Vec<Edge>) -> (r: Vec<bool>)
    ensures
        r@.len() == node_count,
        forall|v: usize| v < node_count ==> (r@[v as int] <==> has_self_loop(edges@, v)),
{
    let mut r: Vec<bool> = Vec::new();
    while r.len() < node_count
        invariant
            r.len() <= node_count,
            forall|i: int| 0 <= i < r.len() ==> !#[trigger] r@[i],
        decreases node_count - r.len(),
    {
        r.push(false);
    }
    let mut k: usize = 0;
    while k < edges.len()
        invariant
            k <= edges@.len(),
            r@.len() == node_count,
            forall|v: usize|
                v < node_count ==> (r@[v as int] <==> exists|j: int|
                    0 <= j < k && #[trigger] edges@[j].source == v && edges@[j].target == v),
        decreases edges.len() - k,
    {
        let e = edges[k];
        if e.source == e.target && e.source < node_count {
            r.set(e.source, true);
        }
        assert forall|v: usize| v < node_count implies (r@[v as int] <==> exists|j: int|
            0 <= j < k + 1 && #[trigger] edges@[j].source == v && edges@[j].target == v) by {
            if edges@[k as int].source == v && edges@[k as int].target == v {
                assert(edges@[k as int].source == v);
            }
        }
        k = k + 1;
    }
    r
}

/// Whether a component is cyclic, given the nodes with self-loops.
fn component_is_cyclic(comp: &Vec<usize>, loops: &Vec<bool>, edges: &Vec<Edge>) -> (r: bool)
    requires
        forall|k: int| 0 <= k < comp@.len() ==> #[trigger] comp@[k] < loops@.len(),
        forall|v: usize| v < loops@.len() ==> (loops@[v as int] <==> has_self_loop(edges@, v)),
    ensures
        r == is_cyclic(comp@, edges@),
{
    if comp.len() > 1 {
        return true;
    }
    let mut k: usize = 0;
    while k < comp.len()
        invariant
            k <= comp@.len(),
            forall|j: int| 0 <= j < comp@.len() ==> #[trigger] comp@[j] < loops@.len(),
            forall|v: usize| v < loops@.len() ==> (loops@[v as int] <==> has_self_loop(edges@, v)),
            forall|j: int| 0 <= j < k ==> !has_self_loop(edges@, #[trigger] comp@[j]),
        decreases comp.len() - k,
    {
        if loops[comp[k]] {
            return true;
        }
        k = k + 1;
    }
    false
}

/// Whether two of the listed members are on different sheets.
fn component_spans_sheets(members: &Vec<Member>, comp: &Vec<usize>) -> (r: bool)
    requires
        forall|k: int| 0 <= k < comp@.len() ==> #[trigger] comp@[k] < members@.len(),
    ensures
        r == spans_sheets(members@, comp@),
{
    let mut first: Option<usize> = None;
    let mut k: usize = 0;
    while k < comp.len()
        invariant
            k <= comp@.len(),
            forall|j: int| 0 <= j < comp@.len() ==> #[trigger] comp@[j] < members@.len(),
            first matches Some(a) ==> a < k && members@[comp@[a as int] as int].sheet is Some,
            first is None ==> forall|j: int| 0 <= j < k ==> members@[#[trigger] comp@[j] as int].sheet is None,
            first matches Some(a) ==> forall|j: int|
                0 <= j < k && (#[trigger] members@[comp@[j] as int].sheet) is Some ==> members@[comp@[j] as int].sheet->0@
                    == members@[comp@[a as int] as int].sheet->0@,
        decreases comp.len() - k,
    {
        match &members[comp[k]].sheet {
            Some(y) => {
                match first {
                    None => {
                        first = Some(k);
                    },
                    Some(a) => {
                        let x = members[comp[a]].sheet.as_ref().unwrap();
                        if !text_equal(x.as_str(), y.as_str()) {
                            assert(comp@[a as int] == comp@[a as int] && comp@[k as int] == comp@[k as int]);
                            return true;
                        }
                    },
                }
            },
            None => {},
        }
        k = k + 1;
    }
    proof {
        if spans_sheets(members@, comp@) {
            let (a, b) = choose|a: int, b: int|
                #![trigger comp@[a], comp@[b]]
                0 <= a < comp@.len() && 0 <= b < comp@.len() && members@[comp@[a] as int].sheet is Some
                    && members@[comp@[b] as int].sheet is Some && members@[comp@[a] as int].sheet->0@
                    != members@[comp@[b] as int].sheet->0@;
            assert(members@[comp@[a] as int].sheet is Some);
            assert(members@[comp@[b] as int].sheet is Some);
        }
    }
    false
}

/// The sorted normalized addresses of the listed members.
fn addresses_of(members: &Vec<Member>, list: &Vec<usize>) -> (r: Vec<String>)
    requires
        forall|k: int| 0 <= k < list@.len() ==> #[trigger] list@[k] < members@.len(),
    ensures
        sorted_by_key::<String>(views(r@)),
        value_set(r@) == normalized_of(members@, list@),
{
    let mut out: Vec<String> = Vec::new();
    let mut k: usize = 0;
    assert(value_set(out@) =~= normalized_of(members@, list@.subrange(0, 0)));
    while k < list.len()
        invariant
            k <= list@.len(),
            forall|j: int| 0 <= j < list@.len() ==> #[trigger] list@[j] < members@.len(),
            sorted_by_key::<String>(views(out@)),
            value_set(out@) == normalized_of(members@, list@.subrange(0, k as int)),
        decreases list.len() - k,
    {
        let ghost pre = list@.subrange(0, k as int);
        let ghost post = list@.subrange(0, k + 1);
        insert_sorted(&mut out, members[list[k]].normalized.clone());
        assert forall|a: Seq<char>| normalized_of(members@, post).contains(a) <==> normalized_of(members@, pre).insert(
            members@[list@[k as int] as int].normalized@,
        ).contains(a) by {
            if normalized_of(members@, post).contains(a) {
                let j = choose|j: int| 0 <= j < post.len() && #[trigger] members@[post[j] as int].normalized@ == a;
                if j < k {
                    assert(pre[j] == post[j]);
                }
            }
            if normalized_of(members@, pre).contains(a) {
                let j = choose|j: int| 0 <= j < pre.len() && #[trigger] members@[pre[j] as int].normalized@ == a;
                assert(post[j] == pre[j]);
            }
            if a == members@[list@[k as int] as int].normalized@ {
                assert(post[k as int] == list@[k as int]);
            }
        }
        assert(value_set(out@) =~= normalized_of(members@, post));
        k = k + 1;
    }
    assert(list@.subrange(0, k as int) =~= list@);
    out
}

/// How many of the sorted texts are in the sorted `set`.
fn count_common(texts: &Vec<String>, set: &Vec<String>) -> (r: usize)
    requires
        sorted_by_key::<String>(views(texts@)),
        sorted_by_key::<String>(views(set@)),
    ensures
        r == value_set(texts@).intersect(value_set(set@)).len(),
{
    let mut common: Vec<String> = Vec::new();
    let mut k: usize = 0;
    assert(value_set(common@) =~= views(texts@).subrange(0, 0).to_set().intersect(value_set(set@)));
    while k < texts.len()
        invariant
            k <= texts@.len(),
            sorted_by_key::<String>(views(set@)),
            sorted_by_key::<String>(views(common@)),
            value_set(common@) == views(texts@).subrange(0, k as int).to_set().intersect(value_set(set@)),
        decreases texts.len() - k,
    {
        let ghost pre = views(texts@).subrange(0, k as int);
        let ghost post = views(texts@).subrange(0, k + 1);
        assert(post =~= pre.push(texts@[k as int]@));
        proof {
            pre.lemma_push_to_set_commute(texts@[k as int]@);
        }
        if sorted_contains(set, &texts[k]) {
            insert_sorted(&mut common, texts[k].clone());
        }
        assert(value_set(common@) =~= post.to_set().intersect(value_set(set@)));
        k = k + 1;
    }
    assert(views(texts@).subrange(0, k as int) =~= views(texts@));
    proof {
        lemma_sorted_set_len::<String>(views(common@));
    }
    common.len()
}

/// How many of the listed members are on the sheet `name`.
fn count_sheet(members: &Vec<Member>, list: &Vec<usize>, name: &str) -> (r: usize)
    requires
        forall|k: int| 0 <= k < list@.len() ==> #[trigger] list@[k] < members@.len(),
    ensures
        r == count_on_sheet(members@, list@, name@),
{
    let mut count: usize = 0;
    let mut k: usize = 0;
    while k < list.len()
        invariant
            k <= list@.len(),
            forall|j: int| 0 <= j < list@.len() ==> #[trigger] list@[j] < members@.len(),
            count == count_on_sheet(members@, list@.subrange(0, k as int), name@),
            count <= k,
        decreases list.len() - k,
    {
        assert(list@.subrange(0, k + 1).drop_last() =~= list@.subrange(0, k as int));
        let on = match &members[list[k]].sheet {
            Some(s) => text_equal(s.as_str(), name),
            None => false,
        };
        if on {
            count = count + 1;
        }
        k = k + 1;
    }
    assert(list@.subrange(0, k as int) =~= list@);
    count
}

/// The metrics of the graph the edges form among the members: the largest
/// strongly connected component (the last of the equally largest in the
/// topological order the components are found in), how many
/// components are cyclic, how many of the largest one's addresses are in
/// `original_static` and in `mismatches`, how many of its members are on
/// the two cash-flow sheets, whether a cyclic component spans two sheets,
/// and the number of edges.
pub fn graph_metrics(
    members: &Vec<Member>,
    edges: &Vec<Edge>,
    original_static: &Vec<String>,
    mismatches: &Vec<String>,
) -> (r: GraphMetrics)
    requires
        all_edges_in_range(members@.len() as nat, edges@),
        sorted_by_key::<String>(views(original_static@)),
        sorted_by_key::<String>(views(mismatches@)),
    ensures
        metrics_hold(members@, edges@, value_set(original_static@), value_set(mismatches@), r),
{
    let n = members.len();
    let mut keep: Vec<bool> = Vec::new();
    while keep.len() < edges.len()
        invariant
            keep.len() <= edges.len(),
            forall|i: int| 0 <= i < keep.len() ==> #[trigger] keep@[i],
        decreases edges.len() - keep.len(),
    {
        keep.push(true);
    }
    assert(keep@ =~= all_kept(edges@));
    assert(edges_in_range(n as nat, edges@, keep@));
    let (comps, _kept) = components(n, edges, &keep);
    let ghost cv = lists_view(&comps);
    let ghost g = edge_graph(n as nat, edges@, all_kept(edges@));
    proof {
        lemma_edge_graph_len(n as nat, edges@, all_kept(edges@));
    }
    let loops = self_loops(n, edges);
    let mut cyclic: usize = 0;
    let mut cross = false;
    let mut best: Option<usize> = None;
    let mut i: usize = 0;
    assert(cv.subrange(0, 0) =~= Seq::<Seq<usize>>::empty());
    while i < comps.len()
        invariant
            cv == lists_view(&comps),
            g.len() == n,
            scc_partition(g, cv),
            loops@.len() == n,
            forall|v: usize| v < n ==> (loops@[v as int] <==> has_self_loop(edges@, v)),
            n == members@.len(),
            i <= cv.len(),
            cyclic == cyclic_count(cv.subrange(0, i as int), edges@),
            cyclic <= i,
            cross == exists|j: int| 0 <= j < i && is_cyclic(#[trigger] cv[j], edges@) && spans_sheets(members@, cv[j]),
            best matches Some(b) ==> b < i && largest_of(cv.subrange(0, i as int)) == cv[b as int],
            best is None ==> largest_of(cv.subrange(0, i as int)) == Seq::<usize>::empty(),
        decreases comps.len() - i,
    {
        let ghost pre = cv.subrange(0, i as int);
        let ghost post = cv.subrange(0, i + 1);
        assert(post.drop_last() =~= pre);
        assert(post.last() == cv[i as int]);
        let comp = &comps[i];
        assert(comp@ == cv[i as int]);
        assert forall|k: int| 0 <= k < comp@.len() implies #[trigger] comp@[k] < n by {
            assert(cv[i as int][k] < g.len());
        }
        let c = component_is_cyclic(comp, &loops, edges);
        if c {
            cyclic = cyclic + 1;
            if !cross {
                cross = component_spans_sheets(members, comp);
            }
        }
        let better = match best {
            None => true,
            Some(b) => comps[b].len() <= comp.len(),
        };
        if better {
            best = Some(i);
        }
        i = i + 1;
    }
    assert(cv.subrange(0, i as int) =~= cv);
    let empty: Vec<usize> = Vec::new();
    let largest = match best {
        Some(b) => &comps[b],
        None => &empty,
    };
    assert(largest@ == largest_of(cv));
    assert forall|k: int| 0 <= k < largest@.len() implies #[trigger] largest@[k] < n by {
        if best is Some {
            let b = best->0;
            assert(cv[b as int][k] < g.len());
        }
    }
    let addresses = addresses_of(members, largest);
    let retained = count_common(&addresses, original_static);
    let mismatched = count_common(&addresses, mismatches);
    let inputs = count_sheet(members, largest, "CASHFLOW INPUTS");
    let engine = count_sheet(members, largest, "CASHFLOW ENGINE");
    let r = GraphMetrics {
        largest_scc: largest.len(),
        cyclic_scc_count: cyclic,
        original_static_members_retained: retained,
        main_component_mismatch_members: mismatched,
        cashflow_inputs_members: inputs,
        cashflow_engine_members: engine,
        cross_sheet_cycle: cross,
        edge_count: edges.len(),
    };
    assert(r == metrics_of(members@, edges@, cv, value_set(original_static@), value_set(mismatches@)));
    r
}

/// A path of the graph from a member on one cash-flow sheet to a member on the other.
pub struct Witness {
    pub direction: String,
    pub member_indices: Vec<usize>,
    pub addresses: Vec<String>,
    pub formulas: Vec<Option<String>>,
}

/// Which members are on the sheet `name`.
pub open spec fn sheet_goal(members: Seq<Member>, name: Seq<char>) -> Seq<bool> {
    Seq::new(members.len(), |i: int| on_sheet(members, i, name))
}

/// The graph of all the edges.
pub open spec fn full_graph(members: Seq<Member>, edges: Seq<Edge>) -> Seq<Seq<usize>> {
    edge_graph(members.len() as nat, edges, all_kept(edges))
}

/// Some member on the sheet `to`, other than `s`, can be reached from `s`.
pub open spec fn reaches_sheet(members: Seq<Member>, edges: Seq<Edge>, s: usize, to: Seq<char>) -> bool {
    goal_reachable(full_graph(members, edges), s, sheet_goal(members, to))
}

/// Some member on the sheet `from` reaches the sheet `to`.
pub open spec fn some_reaches(members: Seq<Member>, edges: Seq<Edge>, from: Seq<char>, to: Seq<char>) -> bool {
    exists|s: usize| s < members.len() && #[trigger] on_sheet(members, s as int, from) && reaches_sheet(members, edges, s, to)
}

/// A member's formula, when it has one.
pub open spec fn formula_text(m: Member) -> Option<Seq<char>> {
    if m.formula_debug@.len() == 0 {
        None
    } else {
        Some(m.formula_debug@)
    }
}

pub open spec fn option_texts(v: Seq<Option<String>>) -> Seq<Option<Seq<char>>> {
    v.map_values(|o: Option<String>| match o {
        Some(t) => Some(t@),
        None => None,
    })
}

/// `w` is the witness from `from` to `to`: a walk that starts at the first
/// member on `from` (by index) that reaches `to`, and ends at a member on
/// `to` with no shorter walk from that start to any member on `to`, with the
/// members' addresses and formulas.
pub open spec fn witness_from(members: Seq<Member>, edges: Seq<Edge>, w: Witness, from: Seq<char>, to: Seq<char>) -> bool {
    let p = w.member_indices@;
    &&& p.len() >= 2
    &&& p[0] < members.len()
    &&& on_sheet(members, p[0] as int, from)
    &&& reaches_sheet(members, edges, p[0], to)
    &&& forall|t: usize| t < p[0] && #[trigger] on_sheet(members, t as int, from) ==> !reaches_sheet(members, edges, t, to)
    &&& p.last() != p[0]
    &&& on_sheet(members, p.last() as int, to)
    &&& is_walk(full_graph(members, edges), p.map_values(|x: usize| x as int))
    &&& forall|q: Seq<int>|
        #[trigger] is_walk(full_graph(members, edges), q) && q[0] == p[0] && q.last() != p[0] && 0 <= q.last()
            < members.len() && on_sheet(members, q.last(), to) ==> p.len() <= q.len()
    &&& views(w.addresses@) == p.map_values(|i: usize| members[i as int].address@)
    &&& option_texts(w.formulas@) == p.map_values(|i: usize| formula_text(members[i as int]))
}

/// `r` holds, for each direction between the two cash-flow sheets (inputs
/// to engine, then engine to inputs), the witness from the first member that
/// reaches the other sheet, when some member does.
pub open spec fn witnesses_of(members: Seq<Member>, edges: Seq<Edge>, r: Seq<Witness>) -> bool {
    let inputs = "CASHFLOW INPUTS"@;
    let engine = "CASHFLOW ENGINE"@;
    let forward = some_reaches(members, edges, inputs, engine);
    let backward = some_reaches(members, edges, engine, inputs);
    &&& r.len() == (if forward { 1int } else { 0int }) + (if backward { 1int } else { 0int })
    &&& forward ==> r[0].direction@ == "CashFlow Inputs -> CashFlow Engine"@ && witness_from(members, edges, r[0], inputs, engine)
    &&& backward ==> r.last().direction@ == "CashFlow Engine -> CashFlow Inputs"@ && witness_from(
        members,
        edges,
        r.last(),
        engine,
        inputs,
    )
}

/// Whether each member is on the sheet `name`.
fn sheet_flags(members: &Vec<Member>, name: &str) -> (r: Vec<bool>)
    ensures
        r@ == sheet_goal(members@, name@),
{
    let mut r: Vec<bool> = Vec::new();
    let mut i: usize = 0;
    while i < members.len()
        invariant
            i <= members@.len(),
            r@ == sheet_goal(members@, name@).subrange(0, i as int),
        decreases members.len() - i,
    {
        let on = match &members[i].sheet {
            Some(s) => text_equal(s.as_str(), name),
            None => false,
        };
        r.push(on);
        assert(r@ =~= sheet_goal(members@, name@).subrange(0, i + 1));
        i = i + 1;
    }
    assert(sheet_goal(members@, name@).subrange(0, i as int) =~= sheet_goal(members@, name@));
    r
}

/// The witness from the first member on `from` that reaches `to`, if any does:
/// a shortest walk from it to a member on `to`.
fn witness_for(members: &Vec<Member>, edges: &Vec<Edge>, from: &str, to: &str, direction: &str) -> (r: Option<Witness>)
    requires
        all_edges_in_range(members@.len() as nat, edges@),
    ensures
        r is Some <==> some_reaches(members@, edges@, from@, to@),
        r matches Some(w) ==> w.direction@ == direction@ && witness_from(members@, edges@, w, from@, to@),
{
    let n = members.len();
    let sources = sheet_flags(members, from);
    let goal = sheet_flags(members, to);
    let mut s: usize = 0;
    while s < n
        invariant
            n == members@.len(),
            s <= n,
            all_edges_in_range(n as nat, edges@),
            sources@ == sheet_goal(members@, from@),
            goal@ == sheet_goal(members@, to@),
            forall|t: usize| t < s && #[trigger] on_sheet(members@, t as int, from@) ==> !reaches_sheet(members@, edges@, t, to@),
        decreases n - s,
    {
        if sources[s] {
            match path_between(n, edges, s, &goal) {
                Some(path) => {
                    let mut addresses: Vec<String> = Vec::new();
                    let mut formulas: Vec<Option<String>> = Vec::new();
                    let mut k: usize = 0;
                    while k < path.len()
                        invariant
                            k <= path@.len(),
                            n == members@.len(),
                            forall|j: int| 0 <= j < path@.len() ==> #[trigger] path@[j] < n,
                            views(addresses@) == path@.subrange(0, k as int).map_values(|i: usize| members@[i as int].address@),
                            option_texts(formulas@) == path@.subrange(0, k as int).map_values(|i: usize| formula_text(members@[i as int])),
                        decreases path.len() - k,
                    {
                        let m = &members[path[k]];
                        let ghost a0 = addresses@;
                        let ghost f0 = formulas@;
                        let address = m.address.clone();
                        addresses.push(address);
                        let formula = if m.formula_debug.as_str().is_empty() {
                            None
                        } else {
                            Some(m.formula_debug.clone())
                        };
                        formulas.push(formula);
                        assert(addresses@ == a0.push(address));
                        assert(formulas@ == f0.push(formula));
                        assert(path@.subrange(0, k + 1) =~= path@.subrange(0, k as int).push(path@[k as int]));
                        assert(views(addresses@) =~= views(a0).push(address@));
                        assert(option_texts(formulas@) =~= option_texts(f0).push(formula_text(members@[path@[k as int] as int])));
                        assert(views(addresses@) =~= path@.subrange(0, k + 1).map_values(|i: usize| members@[i as int].address@));
                        assert(option_texts(formulas@) =~= path@.subrange(0, k + 1).map_values(|i: usize| formula_text(members@[i as int])));
                        k = k + 1;
                    }
                    assert(path@.subrange(0, k as int) =~= path@);
                    let w = Witness { direction: string_of(direction), member_indices: path, addresses, formulas };
                    return Some(w);
                },
                None => {},
            }
        }
        s = s + 1;
    }
    None
}

/// For each direction between the two cash-flow sheets (inputs to engine,
/// then engine to inputs), the witness from the first member that reaches
/// the other sheet, when some member does.
pub fn witnesses(members: &Vec<Member>, edges: &Vec<Edge>) -> (r: Vec<Witness>)
    requires
        all_edges_in_range(members@.len() as nat, edges@),
    ensures
        witnesses_of(members@, edges@, r@),
{
    let mut out: Vec<Witness> = Vec::new();
    match witness_for(members, edges, "CASHFLOW INPUTS", "CASHFLOW ENGINE", "CashFlow Inputs -> CashFlow Engine") {
        Some(w) => out.push(w),
        None => {},
    }
    match witness_for(members, edges, "CASHFLOW ENGINE", "CASHFLOW INPUTS", "CashFlow Engine -> CashFlow Inputs") {
        Some(w) => out.push(w),
        None => {},
    }
    out
}

/// A set of member indices whose outgoing edges a variant drops.
#[derive(Clone, Copy, Debug, PartialEq, Eq)]
pub enum SourceSet {
    Mismatch,
    Unsupported,
    NumericError,
    Conditional,
}

/// Which edges a graph variant keeps.
#[derive(Clone, Copy, Debug, PartialEq, Eq)]
pub enum VariantRule {
    All,
    /// Only the edges whose mask is exactly the direct-cell bit.
    DirectOnly,
    /// The edges whose mask lacks the bit.
    WithoutBit(u16),
    /// The edges whose source is not in the set.
    WithoutSources(SourceSet),
    /// The edges whose source is not in the set and whose mask lacks the bit.
    WithoutSourcesAndBit(SourceSet, u16),
}

/// The member-index sets, each sorted.
pub struct IndexSets {
    pub mismatch: Vec<usize>,
    pub unsupported: Vec<usize>,
    pub numeric_error: Vec<usize>,
    pub conditional: Vec<usize>,
}

/// The member-index sets as sets.
pub struct IndexSetView {
    pub mismatch: Set<usize>,
    pub unsupported: Set<usize>,
    pub numeric_error: Set<usize>,
    pub conditional: Set<usize>,
}

impl IndexSetView {
    pub open spec fn set_of(self, which: SourceSet) -> Set<usize> {
        match which {
            SourceSet::Mismatch => self.mismatch,
            SourceSet::Unsupported => self.unsupported,
            SourceSet::NumericError => self.numeric_error,
            SourceSet::Conditional => self.conditional,
        }
    }
}

impl View for IndexSets {
    type V = IndexSetView;

    open spec fn view(&self) -> IndexSetView {
        IndexSetView {
            mismatch: value_set(self.mismatch@),
            unsupported: value_set(self.unsupported@),
            numeric_error: value_set(self.numeric_error@),
            conditional: value_set(self.conditional@),
        }
    }
}

impl IndexSets {
    pub open spec fn wf(&self) -> bool {
        &&& sorted_by_key::<usize>(views(self.mismatch@))
        &&& sorted_by_key::<usize>(views(self.unsupported@))
        &&& sorted_by_key::<usize>(views(self.numeric_error@))
        &&& sorted_by_key::<usize>(views(self.conditional@))
    }

    fn contains(&self, which: SourceSet, i: usize) -> (r: bool)
        requires
            self.wf(),
        ensures
            r == self@.set_of(which).contains(i),
    {
        match which {
            SourceSet::Mismatch => sorted_contains(&self.mismatch, &i),
            SourceSet::Unsupported => sorted_contains(&self.unsupported, &i),
            SourceSet::NumericError => sorted_contains(&self.numeric_error, &i),
            SourceSet::Conditional => sorted_contains(&self.conditional, &i),
        }
    }
}

/// Whether a variant keeps the edge.
pub open spec fn rule_keeps(rule: VariantRule, sets: IndexSetView, e: Edge) -> bool {
    match rule {
        VariantRule::All => true,
        VariantRule::DirectOnly => e.mask == 1,
        VariantRule::WithoutBit(bit) => e.mask & bit == 0,
        VariantRule::WithoutSources(which) => !sets.set_of(which).contains(e.source),
        VariantRule::WithoutSourcesAndBit(which, bit) => !sets.set_of(which).contains(e.source) && e.mask & bit == 0,
    }
}

/// The edges a variant keeps, in order.
pub open spec fn kept_edges(base: Seq<Edge>, rule: VariantRule, sets: IndexSetView) -> Seq<Edge>
    decreases base.len(),
{
    if base.len() == 0 {
        base
    } else {
        let k = kept_edges(base.drop_last(), rule, sets);
        if rule_keeps(rule, sets, base.last()) {
            k.push(base.last())
        } else {
            k
        }
    }
}

/// One variant of the graph: its name, how many edges it drops, and the
/// metrics and witnesses of what remains.
pub struct Variant {
    pub name: String,
    pub removed_edges: usize,
    pub metrics: GraphMetrics,
    pub witnesses: Vec<Witness>,
}

/// `v` is the variant `name` of `base` under `rule`.
pub open spec fn variant_of(
    v: Variant,
    name: Seq<char>,
    rule: VariantRule,
    members: Seq<Member>,
    base: Seq<Edge>,
    sets: IndexSetView,
    original_static: Set<Seq<char>>,
    mismatches: Set<Seq<char>>,
) -> bool {
    let kept = kept_edges(base, rule, sets);
    &&& v.name@ == name
    &&& v.removed_edges == base.len() - kept.len()
    &&& metrics_hold(members, kept, original_static, mismatches, v.metrics)
    &&& witnesses_of(members, kept, v.witnesses@)
}

/// The edges a variant keeps.
fn filter_edges(base: &Vec<Edge>, rule: VariantRule, sets: &IndexSets, node_count: usize) -> (r: Vec<Edge>)
    requires
        sets.wf(),
        all_edges_in_range(node_count as nat, base@),
    ensures
        r@ == kept_edges(base@, rule, sets@),
        r@.len() <= base@.len(),
        all_edges_in_range(node_count as nat, r@),
{
    let mut out: Vec<Edge> = Vec::new();
    let mut k: usize = 0;
    while k < base.len()
        invariant
            sets.wf(),
            all_edges_in_range(node_count as nat, base@),
            k <= base@.len(),
            out@ == kept_edges(base@.subrange(0, k as int), rule, sets@),
            out@.len() <= k,
            all_edges_in_range(node_count as nat, out@),
        decreases base.len() - k,
    {
        assert(base@.subrange(0, k + 1).drop_last() =~= base@.subrange(0, k as int));
        let e = base[k];
        let keep = match rule {
            VariantRule::All => true,
            VariantRule::DirectOnly => e.mask == 1,
            VariantRule::WithoutBit(bit) => e.mask & bit == 0,
            VariantRule::WithoutSources(which) => !sets.contains(which, e.source),
            VariantRule::WithoutSourcesAndBit(which, bit) => !sets.contains(which, e.source) && e.mask & bit == 0,
        };
        if keep {
            let ghost before = out@;
            out.push(e);
            proof {
                assert(base@[k as int] == e);
                let bk = base@[k as int];
                assert(bk.source < node_count as nat);
                assert(bk.source < node_count && bk.target < node_count);
                assert forall|i: int| 0 <= i < out@.len() implies #[trigger] out@[i].source < node_count && out@[i].target
                    < node_count by {
                    if i < before.len() {
                        assert(out@[i] == before[i]);
                    } else {
                        assert(out@[i] == e);
                    }
                }
            }
        }
        k = k + 1;
    }
    assert(base@.subrange(0, k as int) =~= base@);
    out
}

/// Computes one variant.
fn make_variant(
    name: String,
    rule: VariantRule,
    members: &Vec<Member>,
    base: &Vec<Edge>,
    sets: &IndexSets,
    original_static: &Vec<String>,
    mismatches: &Vec<String>,
) -> (v: Variant)
    requires
        sets.wf(),
        all_edges_in_range(members@.len() as nat, base@),
        sorted_by_key::<String>(views(original_static@)),
        sorted_by_key::<String>(views(mismatches@)),
    ensures
        variant_of(v, name@, rule, members@, base@, sets@, value_set(original_static@), value_set(mismatches@)),
{
    let kept = filter_edges(base, rule, sets, members.len());
    let metrics = graph_metrics(members, &kept, original_static, mismatches);
    let found = witnesses(members, &kept);
    Variant { name, removed_edges: base.len() - kept.len(), metrics, witnesses: found }
}

/// `prefix` followed by `suffix`.
fn suffixed(prefix: &str, suffix: &str) -> (r: String)
    ensures
        r@ == prefix@ + suffix@,
{
    let mut s = string_of(prefix);
    push_str(&mut s, suffix);
    s
}

/// `prefix` followed by `a`, `middle` and `b`.
fn variant_name(prefix: &str, a: &str, middle: &str, b: &str) -> (r: String)
    ensures
        r@ == prefix@ + a@ + middle@ + b@,
{
    let mut s = string_of(prefix);
    push_str(&mut s, a);
    push_str(&mut s, middle);
    push_str(&mut s, b);
    s
}

/// The first position of `name` among the families, if it is one.
pub open spec fn family_position(families: Seq<Seq<char>>, name: Seq<char>) -> Option<int> {
    if families.contains(name) {
        Some(choose|i: int| 0 <= i < families.len() && families[i] == name && forall|j: int| 0 <= j < i ==> families[j] != name)
    } else {
        None
    }
}

fn find_family(families: &Vec<String>, name: &str) -> (r: Option<usize>)
    ensures
        r matches Some(i) ==> family_position(views(families@), name@) == Some(i as int) && i < families@.len(),
        r is None ==> family_position(views(families@), name@) is None,
{
    let ghost fv = views(families@);
    let mut i: usize = 0;
    while i < families.len()
        invariant
            fv == views(families@),
            i <= families@.len(),
            forall|j: int| 0 <= j < i ==> fv[j] != name@,
        decreases families.len() - i,
    {
        if text_equal(families[i].as_str(), name) {
            assert(fv[i as int] == name@);
            let ghost w = choose|k: int| 0 <= k < fv.len() && fv[k] == name@ && forall|j: int| 0 <= j < k ==> fv[j] != name@;
            proof {
                assert(fv.contains(name@));
                if w < i {
                    assert(fv[w] != name@);
                }
                if w > i {
                    assert(fv[i as int] != name@);
                }
            }
            return Some(i);
        }
        i = i + 1;
    }
    assert(!fv.contains(name@));
    None
}

/// The first variants: all edges, then direct cell edges only.
pub open spec fn plan_head(prefix: Seq<char>) -> Seq<(Seq<char>, VariantRule)> {
    seq![(prefix + "_all"@, VariantRule::All), (prefix + "_direct_exact_cell_only"@, VariantRule::DirectOnly)]
}

/// One variant without each of the first `take` families (bit `1 << i` for
/// the family at position `i`).
pub open spec fn plan_families(prefix: Seq<char>, families: Seq<Seq<char>>, take: nat) -> Seq<(Seq<char>, VariantRule)> {
    Seq::new(
        take,
        |i: int| (prefix + "_without_"@ + families[i] + "_origin"@, VariantRule::WithoutBit(1u16 << (i as u16))),
    )
}

/// The variants without the edges from each set of sources.
pub open spec fn plan_sources(prefix: Seq<char>) -> Seq<(Seq<char>, VariantRule)> {
    seq![
        (prefix + "_without_known_mismatch_source_edges"@, VariantRule::WithoutSources(SourceSet::Mismatch)),
        (prefix + "_without_unsupported_or_name_source_edges"@, VariantRule::WithoutSources(SourceSet::Unsupported)),
        (prefix + "_without_excel_numeric_to_error_source_edges"@, VariantRule::WithoutSources(SourceSet::NumericError)),
        (prefix + "_without_conditional_mismatch_source_edges"@, VariantRule::WithoutSources(SourceSet::Conditional)),
    ]
}

/// The variant that drops a set of sources together with the family
/// `family`, where the families name it.
pub open spec fn plan_cross(
    prefix: Seq<char>,
    families: Seq<Seq<char>>,
    family: Seq<char>,
    suffix: Seq<char>,
    which: SourceSet,
) -> Seq<(Seq<char>, VariantRule)> {
    match family_position(families, family) {
        Some(i) => seq![(prefix + suffix, VariantRule::WithoutSourcesAndBit(which, 1u16 << (i as u16)))],
        None => Seq::empty(),
    }
}

/// The variants a graph is analysed under, in order: all edges; direct
/// cell edges only; without each of the first `family_count` families;
/// without the edges from known mismatches, from unsupported or name
/// errors, from numeric-to-error mismatches and from conditional
/// mismatches; and, where the families name them, the mismatch sources
/// together with named-range origins, the unsupported sources together with
/// range origins, and the conditional mismatches together with
/// dynamic-reference origins.
pub open spec fn variant_plan(prefix: Seq<char>, families: Seq<Seq<char>>, family_count: nat) -> Seq<(Seq<char>, VariantRule)> {
    let take = if family_count < families.len() { family_count } else { families.len() };
    plan_head(prefix) + plan_families(prefix, families, take) + plan_sources(prefix) + plan_cross(
        prefix,
        families,
        "named_range"@,
        "_mismatch_sources_plus_named_origins"@,
        SourceSet::Mismatch,
    ) + plan_cross(prefix, families, "range"@, "_unsupported_sources_plus_range_origins"@, SourceSet::Unsupported)
        + plan_cross(
        prefix,
        families,
        "dynamic_reference"@,
        "_conditional_mismatch_plus_dynamic_origins"@,
        SourceSet::Conditional,
    )
}

/// A copy of a list of indices.
fn copy_indices(v: &Vec<usize>) -> (r: Vec<usize>)
    ensures
        r@ == v@,
{
    let mut out: Vec<usize> = Vec::new();
    let mut i: usize = 0;
    while i < v.len()
        invariant
            i <= v@.len(),
            out@ == v@.subrange(0, i as int),
        decreases v.len() - i,
    {
        out.push(v[i]);
        assert(out@ =~= v@.subrange(0, i + 1));
        i = i + 1;
    }
    assert(v@.subrange(0, i as int) =~= v@);
    out
}

/// Appends the variant of `plan` at the position `out` has reached.
fn push_variant(
    out: &mut Vec<Variant>,
    plan: Ghost<Seq<(Seq<char>, VariantRule)>>,
    name: String,
    rule: VariantRule,
    members: &Vec<Member>,
    base: &Vec<Edge>,
    sets: &IndexSets,
    original_static: &Vec<String>,
    mismatches: &Vec<String>,
)
    requires
        sets.wf(),
        all_edges_in_range(members@.len() as nat, base@),
        sorted_by_key::<String>(views(original_static@)),
        sorted_by_key::<String>(views(mismatches@)),
        old(out)@.len() < plan@.len(),
        plan@[old(out)@.len() as int] == (name@, rule),
        forall|j: int|
            0 <= j < old(out)@.len() ==> variant_of(
                #[trigger] old(out)@[j],
                plan@[j].0,
                plan@[j].1,
                members@,
                base@,
                sets@,
                value_set(original_static@),
                value_set(mismatches@),
            ),
    ensures
        final(out)@.len() == old(out)@.len() + 1,
        forall|j: int|
            0 <= j < final(out)@.len() ==> variant_of(
                #[trigger] final(out)@[j],
                plan@[j].0,
                plan@[j].1,
                members@,
                base@,
                sets@,
                value_set(original_static@),
                value_set(mismatches@),
            ),
{
    let v = make_variant(name, rule, members, base, sets, original_static, mismatches);
    out.push(v);
}

/// The variants of a graph (see [`variant_plan`]): for each, the edges it
/// keeps, the metrics of their graph (the largest component the last of the
/// equally largest, see [`metrics_hold`]), and the witnesses between the two
/// cash-flow sheets.
pub fn variants(
    prefix: &str,
    base: &Vec<Edge>,
    family_count: usize,
    families: &Vec<String>,
    members: &Vec<Member>,
    original_static: &Vec<String>,
    mismatches: &Vec<String>,
    mismatch_indices: &Vec<usize>,
    unsupported_indices: &Vec<usize>,
    numeric_error_indices: &Vec<usize>,
    conditional_indices: &Vec<usize>,
) -> (r: Vec<Variant>)
    requires
        families@.len() <= 16,
        all_edges_in_range(members@.len() as nat, base@),
        sorted_by_key::<String>(views(original_static@)),
        sorted_by_key::<String>(views(mismatches@)),
        sorted_by_key::<usize>(views(mismatch_indices@)),
        sorted_by_key::<usize>(views(unsupported_indices@)),
        sorted_by_key::<usize>(views(numeric_error_indices@)),
        sorted_by_key::<usize>(views(conditional_indices@)),
    ensures
        ({
            let plan = variant_plan(prefix@, views(families@), family_count as nat);
            let sets = IndexSetView {
                mismatch: value_set(mismatch_indices@),
                unsupported: value_set(unsupported_indices@),
                numeric_error: value_set(numeric_error_indices@),
                conditional: value_set(conditional_indices@),
            };
            &&& r@.len() == plan.len()
            &&& forall|j: int|
                0 <= j < plan.len() ==> variant_of(
                    #[trigger] r@[j],
                    plan[j].0,
                    plan[j].1,
                    members@,
                    base@,
                    sets,
                    value_set(original_static@),
                    value_set(mismatches@),
                )
        }),
{
    let sets = IndexSets {
        mismatch: copy_indices(mismatch_indices),
        unsupported: copy_indices(unsupported_indices),
        numeric_error: copy_indices(numeric_error_indices),
        conditional: copy_indices(conditional_indices),
    };
    let ghost fv = views(families@);
    let ghost plan = variant_plan(prefix@, fv, family_count as nat);
    let take: usize = if family_count < families.len() {
        family_count
    } else {
        families.len()
    };
    let ghost head = plan_head(prefix@);
    let ghost fams = plan_families(prefix@, fv, take as nat);
    let ghost srcs = plan_sources(prefix@);
    let ghost named = plan_cross(prefix@, fv, "named_range"@, "_mismatch_sources_plus_named_origins"@, SourceSet::Mismatch);
    let ghost ranged = plan_cross(prefix@, fv, "range"@, "_unsupported_sources_plus_range_origins"@, SourceSet::Unsupported);
    let ghost dynamic = plan_cross(
        prefix@,
        fv,
        "dynamic_reference"@,
        "_conditional_mismatch_plus_dynamic_origins"@,
        SourceSet::Conditional,
    );
    assert(plan == head + fams + srcs + named + ranged + dynamic);
    let mut out: Vec<Variant> = Vec::new();
    assert(plan[0] == head[0]);
    assert(plan[1] == head[1]);
    push_variant(&mut out, Ghost(plan), suffixed(prefix, "_all"), VariantRule::All, members, base, &sets, original_static, mismatches);
    push_variant(
        &mut out,
        Ghost(plan),
        suffixed(prefix, "_direct_exact_cell_only"),
        VariantRule::DirectOnly,
        members,
        base,
        &sets,
        original_static,
        mismatches,
    );
    let mut index: usize = 0;
    while index < take
        invariant
            sets.wf(),
            all_edges_in_range(members@.len() as nat, base@),
            sorted_by_key::<String>(views(original_static@)),
            sorted_by_key::<String>(views(mismatches@)),
            fv == views(families@),
            take <= families@.len() <= 16,
            plan == head + fams + srcs + named + ranged + dynamic,
            head.len() == 2,
            fams == plan_families(prefix@, fv, take as nat),
            index <= take,
            out@.len() == 2 + index,
            forall|j: int|
                0 <= j < out@.len() ==> variant_of(
                    #[trigger] out@[j],
                    plan[j].0,
                    plan[j].1,
                    members@,
                    base@,
                    sets@,
                    value_set(original_static@),
                    value_set(mismatches@),
                ),
        decreases take - index,
    {
        let name = variant_name(prefix, "_without_", families[index].as_str(), "_origin");
        let rule = VariantRule::WithoutBit(1u16 << (index as u16));
        assert(plan[2 + index] == fams[index as int]);
        assert(name@ == fams[index as int].0);
        push_variant(&mut out, Ghost(plan), name, rule, members, base, &sets, original_static, mismatches);
        index = index + 1;
    }
    let ghost base_len = 2 + take;
    assert(plan[base_len] == srcs[0]);
    assert(plan[base_len + 1] == srcs[1]);
    assert(plan[base_len + 2] == srcs[2]);
    assert(plan[base_len + 3] == srcs[3]);
    push_variant(
        &mut out,
        Ghost(plan),
        suffixed(prefix, "_without_known_mismatch_source_edges"),
        VariantRule::WithoutSources(SourceSet::Mismatch),
        members,
        base,
        &sets,
        original_static,
        mismatches,
    );
    push_variant(
        &mut out,
        Ghost(plan),
        suffixed(prefix, "_without_unsupported_or_name_source_edges"),
        VariantRule::WithoutSources(SourceSet::Unsupported),
        members,
        base,
        &sets,
        original_static,
        mismatches,
    );
    push_variant(
        &mut out,
        Ghost(plan),
        suffixed(prefix, "_without_excel_numeric_to_error_source_edges"),
        VariantRule::WithoutSources(SourceSet::NumericError),
        members,
        base,
        &sets,
        original_static,
        mismatches,
    );
    push_variant(
        &mut out,
        Ghost(plan),
        suffixed(prefix, "_without_conditional_mismatch_source_edges"),
        VariantRule::WithoutSources(SourceSet::Conditional),
        members,
        base,
        &sets,
        original_static,
        mismatches,
    );
    let ghost at = base_len + 4;
    match find_family(families, "named_range") {
        Some(i) => {
            assert(plan[out@.len() as int] == named[0]);
            push_variant(
                &mut out,
                Ghost(plan),
                suffixed(prefix, "_mismatch_sources_plus_named_origins"),
                VariantRule::WithoutSourcesAndBit(SourceSet::Mismatch, 1u16 << (i as u16)),
                members,
                base,
                &sets,
                original_static,
                mismatches,
            );
        },
        None => {},
    }
    assert(out@.len() == at + named.len());
    match find_family(families, "range") {
        Some(i) => {
            assert(plan[out@.len() as int] == ranged[0]);
            push_variant(
                &mut out,
                Ghost(plan),
                suffixed(prefix, "_unsupported_sources_plus_range_origins"),
                VariantRule::WithoutSourcesAndBit(SourceSet::Unsupported, 1u16 << (i as u16)),
                members,
                base,
                &sets,
                original_static,
                mismatches,
            );
        },
        None => {},
    }
    assert(out@.len() == at + named.len() + ranged.len());
    match find_family(families, "dynamic_reference") {
        Some(i) => {
            assert(plan[out@.len() as int] == dynamic[0]);
            push_variant(
                &mut out,
                Ghost(plan),
                suffixed(prefix, "_conditional_mismatch_plus_dynamic_origins"),
                VariantRule::WithoutSourcesAndBit(SourceSet::Conditional, 1u16 << (i as u16)),
                members,
                base,
                &sets,
                original_static,
                mismatches,
            );
        },
        None => {},
    }
    assert(out@.len() == plan.len());
    out
}

/// One entry of a mismatch inventory, as the analysis reads it.
pub struct MismatchItem {
    pub address: Option<String>,
    /// The formula features, when the entry lists them.
    pub formula_features: Option<Vec<String>>,
    pub category: Option<String>,
    /// The kind of error the engine produced, when it produced one.
    pub error_kind: Option<String>,
}

pub open spec fn opt_text(o: Option<String>) -> Option<Seq<char>> {
    match o {
        Some(t) => Some(t@),
        None => None,
    }
}

/// The entry lists the feature `feature`.
pub open spec fn has_feature(item: MismatchItem, feature: Seq<char>) -> bool {
    item.formula_features matches Some(fs) && views(fs@).contains(feature)
}

/// The entry's category starts with `prefix`.
pub open spec fn category_starts_with(item: MismatchItem, prefix: Seq<char>) -> bool {
    item.category matches Some(c) && c@.len() >= prefix.len() && c@.subrange(0, prefix.len() as int) == prefix
}

/// The mismatch families the analysis drops edges by.
#[derive(Clone, Copy, Debug, PartialEq, Eq)]
pub enum MismatchFamily {
    Any,
    UnsupportedOrName,
    NumericToError,
    Conditional,
}

/// Whether an entry belongs to a family.
pub open spec fn in_family(item: MismatchItem, family: MismatchFamily) -> bool {
    match family {
        MismatchFamily::Any => true,
        MismatchFamily::UnsupportedOrName => has_feature(item, "unsupported_or_xlfn"@) || opt_text(item.category) == Some(
            "excel_numeric_formualizer_nimpl_error"@,
        ) || opt_text(item.error_kind) == Some("Name"@) || opt_text(item.error_kind) == Some("NImpl"@),
        MismatchFamily::NumericToError => category_starts_with(item, "excel_numeric_formualizer_"@),
        MismatchFamily::Conditional => has_feature(item, "conditional"@),
    }
}

/// The normalized addresses of the entries of a family that have an address.
pub open spec fn family_addresses(items: Seq<MismatchItem>, family: MismatchFamily) -> Set<Seq<char>> {
    Set::new(
        |a: Seq<char>|
            exists|k: int|
                0 <= k < items.len() && in_family(#[trigger] items[k], family) && items[k].address is Some
                    && normalized_address(items[k].address->0@) == a,
    )
}

/// Whether the list of texts holds `t`.
fn contains_text(v: &Vec<String>, t: &str) -> (r: bool)
    ensures
        r == views(v@).contains(t@),
{
    let mut i: usize = 0;
    while i < v.len()
        invariant
            i <= v@.len(),
            forall|j: int| 0 <= j < i ==> views(v@)[j] != t@,
        decreases v.len() - i,
    {
        if text_equal(v[i].as_str(), t) {
            assert(views(v@)[i as int] == t@);
            return true;
        }
        i = i + 1;
    }
    false
}

/// Whether `s` starts with `prefix`.
fn starts_with(s: &str, prefix: &str) -> (r: bool)
    ensures
        r == (s@.len() >= prefix@.len() && s@.subrange(0, prefix@.len() as int) == prefix@),
{
    let a = chars_of(s);
    let b = chars_of(prefix);
    if a.len() < b.len() {
        return false;
    }
    let mut i: usize = 0;
    while i < b.len()
        invariant
            a@ == s@,
            b@ == prefix@,
            b@.len() <= a@.len(),
            i <= b@.len(),
            a@.subrange(0, i as int) == b@.subrange(0, i as int),
        decreases b.len() - i,
    {
        if a[i] != b[i] {
            assert(a@.subrange(0, b@.len() as int)[i as int] != b@[i as int]);
            return false;
        }
        assert(a@.subrange(0, i + 1) =~= a@.subrange(0, i as int).push(a@[i as int]));
        assert(b@.subrange(0, i + 1) =~= b@.subrange(0, i as int).push(b@[i as int]));
        i = i + 1;
    }
    assert(b@.subrange(0, i as int) =~= b@);
    true
}

fn text_is(o: &Option<String>, t: &str) -> (r: bool)
    ensures
        r == (opt_text(*o) == Some(t@)),
{
    match o {
        Some(x) => text_equal(x.as_str(), t),
        None => false,
    }
}

/// Whether an entry belongs to a family (see [`in_family`]).
fn item_in_family(item: &MismatchItem, family: MismatchFamily) -> (r: bool)
    ensures
        r == in_family(*item, family),
{
    let feature = |name: &str| -> (b: bool)
        ensures
            b == has_feature(*item, name@),
    {
        match &item.formula_features {
            Some(fs) => contains_text(fs, name),
            None => false,
        }
    };
    match family {
        MismatchFamily::Any => true,
        MismatchFamily::UnsupportedOrName => {
            feature("unsupported_or_xlfn") || text_is(&item.category, "excel_numeric_formualizer_nimpl_error")
                || text_is(&item.error_kind, "Name") || text_is(&item.error_kind, "NImpl")
        },
        MismatchFamily::NumericToError => match &item.category {
            Some(c) => starts_with(c.as_str(), "excel_numeric_formualizer_"),
            None => false,
        },
        MismatchFamily::Conditional => feature("conditional"),
    }
}

/// The sorted normalized addresses of the entries of a family (see [`family_addresses`]).
pub fn addresses_in_family(items: &Vec<MismatchItem>, family: MismatchFamily) -> (r: Vec<String>)
    ensures
        sorted_by_key::<String>(views(r@)),
        value_set(r@) == family_addresses(items@, family),
{
    let mut out: Vec<String> = Vec::new();
    let mut k: usize = 0;
    assert(value_set(out@) =~= family_addresses(items@.subrange(0, 0), family));
    while k < items.len()
        invariant
            k <= items@.len(),
            sorted_by_key::<String>(views(out@)),
            value_set(out@) == family_addresses(items@.subrange(0, k as int), family),
        decreases items.len() - k,
    {
        let ghost pre = items@.subrange(0, k as int);
        let ghost post = items@.subrange(0, k + 1);
        let item = &items[k];
        let ghost added: Option<Seq<char>> = None;
        if item_in_family(item, family) {
            match &item.address {
                Some(a) => {
                    let n = normalize_address(a.as_str());
                    proof {
                        added = Some(n@);
                    }
                    insert_sorted(&mut out, n);
                },
                None => {},
            }
        }
        assert forall|x: Seq<char>| family_addresses(post, family).contains(x) <==> (family_addresses(pre, family).contains(x)
            || added == Some(x)) by {
            if family_addresses(post, family).contains(x) {
                let j = choose|j: int|
                    0 <= j < post.len() && in_family(#[trigger] post[j], family) && post[j].address is Some
                        && normalized_address(post[j].address->0@) == x;
                if j < k {
                    assert(pre[j] == post[j]);
                }
            }
            if family_addresses(pre, family).contains(x) {
                let j = choose|j: int|
                    0 <= j < pre.len() && in_family(#[trigger] pre[j], family) && pre[j].address is Some
                        && normalized_address(pre[j].address->0@) == x;
                assert(post[j] == pre[j]);
            }
            if added == Some(x) {
                assert(post[k as int] == items@[k as int]);
            }
        }
        assert(value_set(out@) =~= family_addresses(post, family));
        k = k + 1;
    }
    assert(items@.subrange(0, k as int) =~= items@);
    out
}

/// The sorted normalized forms of the addresses that name a sheet (hold `!`).
pub open spec fn sheet_addresses(addresses: Seq<Seq<char>>) -> Set<Seq<char>> {
    Set::new(
        |a: Seq<char>| exists|k: int| 0 <= k < addresses.len() && #[trigger] addresses[k].contains('!') && normalized_address(addresses[k]) == a,
    )
}

/// The normalized forms of the addresses that name a sheet, sorted.
pub fn normalized_sheet_addresses(addresses: &Vec<String>) -> (r: Vec<String>)
    ensures
        sorted_by_key::<String>(views(r@)),
        value_set(r@) == sheet_addresses(views(addresses@)),
{
    let ghost av = views(addresses@);
    let mut out: Vec<String> = Vec::new();
    let mut k: usize = 0;
    assert(value_set(out@) =~= sheet_addresses(av.subrange(0, 0)));
    while k < addresses.len()
        invariant
            av == views(addresses@),
            k <= av.len(),
            sorted_by_key::<String>(views(out@)),
            value_set(out@) == sheet_addresses(av.subrange(0, k as int)),
        decreases addresses.len() - k,
    {
        let ghost pre = av.subrange(0, k as int);
        let ghost post = av.subrange(0, k + 1);
        let chars = chars_of(addresses[k].as_str());
        let bang = find_char(&chars, '!');
        let ghost added: Option<Seq<char>> = None;
        if bang.is_some() {
            assert(chars@.contains('!')) by {
                assert(chars@[bang->0 as int] == '!');
            }
            let n = normalize_address(addresses[k].as_str());
            proof {
                added = Some(n@);
            }
            insert_sorted(&mut out, n);
        }
        assert(post[k as int] == av[k as int]);
        assert forall|x: Seq<char>| sheet_addresses(post).contains(x) <==> (sheet_addresses(pre).contains(x) || added == Some(x)) by {
            if sheet_addresses(post).contains(x) {
                let j = choose|j: int| 0 <= j < post.len() && #[trigger] post[j].contains('!') && normalized_address(post[j]) == x;
                if j < k {
                    assert(pre[j] == post[j]);
                }
            }
            if sheet_addresses(pre).contains(x) {
                let j = choose|j: int| 0 <= j < pre.len() && #[trigger] pre[j].contains('!') && normalized_address(pre[j]) == x;
                assert(post[j] == pre[j]);
            }
        }
        assert(value_set(out@) =~= sheet_addresses(post));
        k = k + 1;
    }
    assert(av.subrange(0, k as int) =~= av);
    out
}

/// The member index an address maps to: the last member with that normalized address.
pub open spec fn index_of_address(members: Seq<Member>, a: Seq<char>) -> Option<usize> {
    if exists|i: int| 0 <= i < members.len() && members[i].normalized@ == a {
        Some(
            (choose|i: int|
                0 <= i < members.len() && members[i].normalized@ == a && forall|j: int|
                    i < j < members.len() ==> members[j].normalized@ != a) as usize,
        )
    } else {
        None
    }
}

/// The member indices that the addresses map to.
pub open spec fn indices_of(members: Seq<Member>, addresses: Set<Seq<char>>) -> Set<usize> {
    Set::new(|i: usize| exists|a: Seq<char>| addresses.contains(a) && index_of_address(members, a) == Some(i))
}

/// The index of the last member with the normalized address `a`.
fn member_index_of(members: &Vec<Member>, a: &String) -> (r: Option<usize>)
    ensures
        r == index_of_address(members@, a@),
{
    let mut i = members.len();
    while i > 0
        invariant
            i <= members@.len(),
            forall|j: int| i <= j < members@.len() ==> members@[j].normalized@ != a@,
        decreases i,
    {
        i = i - 1;
        if text_equal(members[i].normalized.as_str(), a.as_str()) {
            let ghost w = choose|k: int|
                0 <= k < members@.len() && members@[k].normalized@ == a@ && forall|j: int|
                    k < j < members@.len() ==> members@[j].normalized@ != a@;
            proof {
                assert(members@[i as int].normalized@ == a@);
                if w < i {
                    assert(members@[i as int].normalized@ != a@);
                }
                if w > i {
                    assert(members@[w].normalized@ != a@);
                }
            }
            return Some(i);
        }
    }
    None
}

/// The member indices of a sorted list of addresses (see [`indices_of`]).
pub fn indices_of_addresses(members: &Vec<Member>, addresses: &Vec<String>) -> (r: Vec<usize>)
    requires
        sorted_by_key::<String>(views(addresses@)),
    ensures
        sorted_by_key::<usize>(views(r@)),
        value_set(r@) == indices_of(members@, value_set(addresses@)),
{
    let ghost av = views(addresses@);
    let mut out: Vec<usize> = Vec::new();
    let mut k: usize = 0;
    assert(value_set(out@) =~= indices_of(members@, av.subrange(0, 0).to_set()));
    while k < addresses.len()
        invariant
            av == views(addresses@),
            k <= av.len(),
            sorted_by_key::<usize>(views(out@)),
            value_set(out@) == indices_of(members@, av.subrange(0, k as int).to_set()),
        decreases addresses.len() - k,
    {
        let ghost pre = av.subrange(0, k as int).to_set();
        let ghost post = av.subrange(0, k + 1).to_set();
        assert(av.subrange(0, k + 1) =~= av.subrange(0, k as int).push(av[k as int]));
        proof {
            av.subrange(0, k as int).lemma_push_to_set_commute(av[k as int]);
        }
        let found = member_index_of(members, &addresses[k]);
        match found {
            Some(i) => {
                insert_sorted(&mut out, i);
            },
            None => {},
        }
        assert forall|i: usize| indices_of(members@, post).contains(i) <==> (indices_of(members@, pre).contains(i) || found
            == Some(i)) by {
            if indices_of(members@, post).contains(i) {
                let a = choose|a: Seq<char>| post.contains(a) && index_of_address(members@, a) == Some(i);
                if a != av[k as int] {
                    assert(pre.contains(a));
                }
            }
            if found == Some(i) {
                assert(post.contains(av[k as int]));
            }
            if indices_of(members@, pre).contains(i) {
                let a = choose|a: Seq<char>| pre.contains(a) && index_of_address(members@, a) == Some(i);
                assert(post.contains(a));
            }
        }
        assert(value_set(out@) =~= indices_of(members@, post));
        k = k + 1;
    }
    assert(av.subrange(0, k as int) =~= av);
    out
}

/// The number of edges whose mask has a bit of `bit`.
pub open spec fn edges_with_bit(edges: Seq<Edge>, bit: u16) -> nat
    decreases edges.len(),
{
    if edges.len() == 0 {
        0
    } else {
        edges_with_bit(edges.drop_last(), bit) + if edges.last().mask & bit != 0 {
            1nat
        } else {
            0nat
        }
    }
}

/// For each of the first `family_count` families (at most 16), how many
/// edges came from it (bit `1 << i` for the family at position `i`).
pub fn origin_counts(edges: &Vec<Edge>, family_count: usize) -> (r: Vec<usize>)
    requires
        family_count <= 16,
    ensures
        r@.len() == family_count,
        forall|i: int| 0 <= i < family_count ==> #[trigger] r@[i] == edges_with_bit(edges@, 1u16 << (i as u16)),
{
    let mut out: Vec<usize> = Vec::new();
    let mut f: usize = 0;
    while f < family_count
        invariant
            f <= family_count <= 16,
            out@.len() == f,
            forall|i: int| 0 <= i < f ==> #[trigger] out@[i] == edges_with_bit(edges@, 1u16 << (i as u16)),
        decreases family_count - f,
    {
        let bit: u16 = 1u16 << (f as u16);
        let mut count: usize = 0;
        let mut k: usize = 0;
        while k < edges.len()
            invariant
                k <= edges@.len(),
                count == edges_with_bit(edges@.subrange(0, k as int), bit),
                count <= k,
            decreases edges.len() - k,
        {
            assert(edges@.subrange(0, k + 1).drop_last() =~= edges@.subrange(0, k as int));
            if edges[k].mask & bit != 0 {
                count = count + 1;
            }
            k = k + 1;
        }
        assert(edges@.subrange(0, k as int) =~= edges@);
        out.push(count);
        f = f + 1;
    }
    out
}

} // verus!
