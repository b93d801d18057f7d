//! Reading the edge dumps of a cycle candidate for graph analysis: the
//! members (`M` lines) and runtime edges (`R` lines) of one dump, and the
//! static edges (`S` lines) of another, with repeated static edges merged.
use vstd::prelude::*;
use crate::analysis::{Member, MemberView, address_sheet, normalize_address, normalized_address, sheet_of, string_from};
use crate::dump::{char_lists, fields_of, is_tag, line_fields, lines_of, parse_or, parse_unsigned, parse_unsigned_exec, parsed_or, text_lines};
use crate::graph::Edge;
use crate::text::chars_of;

verus! {

/// What goes wrong reading edge dumps.
#[derive(Clone, Copy, Debug, PartialEq, Eq)]
pub enum DumpError {
    /// A field that must be a number is not one.
    BadNumber,
    /// The dump lists no members.
    NoMembers,
}

/// The fields of the lines of a dump after its header line.
pub open spec fn body_fields(t: Seq<char>) -> Seq<Seq<Seq<char>>> {
    let ls = text_lines(t);
    if ls.len() == 0 {
        Seq::empty()
    } else {
        ls.drop_first().map_values(|l: Seq<char>| line_fields(l))
    }
}

/// A member line: `M` with at least seven fields.
pub open spec fn is_member_line(f: Seq<Seq<char>>) -> bool {
    f[0] == seq!['M'] && f.len() >= 7
}

/// A runtime edge line: `R` with at least four fields.
pub open spec fn is_runtime_line(f: Seq<Seq<char>>) -> bool {
    f[0] == seq!['R'] && f.len() >= 4
}

/// A static edge line: `S` with at least three fields.
pub open spec fn is_static_line(f: Seq<Seq<char>>) -> bool {
    f[0] == seq!['S'] && f.len() >= 3
}

pub open spec fn parses_usize(s: Seq<char>) -> bool {
    parse_unsigned(s, usize::MAX as nat) is Some
}

pub open spec fn usize_of(s: Seq<char>) -> usize {
    parse_unsigned(s, usize::MAX as nat)->0 as usize
}

/// Every number a line of the edge dump needs parses.
pub open spec fn dump_line_parses(f: Seq<Seq<char>>) -> bool {
    &&& is_member_line(f) ==> parses_usize(f[1])
    &&& is_runtime_line(f) ==> parses_usize(f[1]) && parses_usize(f[2]) && parse_unsigned(f[3], u16::MAX as nat) is Some
}

/// Every number a static line needs parses (its mask may be missing or not a number).
pub open spec fn static_line_parses(f: Seq<Seq<char>>) -> bool {
    is_static_line(f) ==> parses_usize(f[1]) && parses_usize(f[2])
}

/// The member a member line describes.
pub open spec fn member_of(f: Seq<Seq<char>>) -> MemberView {
    MemberView {
        member_index: usize_of(f[1]),
        address: f[3],
        normalized: normalized_address(f[3]),
        sheet: address_sheet(f[3]),
        dynamic: f[4] == "true"@,
        volatile: f[5] == "true"@,
        formula_debug: f[6],
    }
}

/// The members the lines list, in line order.
pub open spec fn members_listed(fs: Seq<Seq<Seq<char>>>) -> Seq<MemberView>
    decreases fs.len(),
{
    if fs.len() == 0 {
        Seq::empty()
    } else if is_member_line(fs.last()) {
        members_listed(fs.drop_last()).push(member_of(fs.last()))
    } else {
        members_listed(fs.drop_last())
    }
}

/// The runtime edges the lines list, in line order.
pub open spec fn runtime_edges_listed(fs: Seq<Seq<Seq<char>>>) -> Seq<Edge>
    decreases fs.len(),
{
    if fs.len() == 0 {
        Seq::empty()
    } else if !is_member_line(fs.last()) && is_runtime_line(fs.last()) {
        let f = fs.last();
        runtime_edges_listed(fs.drop_last()).push(
            Edge { source: usize_of(f[1]), target: usize_of(f[2]), mask: parse_unsigned(f[3], u16::MAX as nat)->0 as u16 },
        )
    } else {
        runtime_edges_listed(fs.drop_last())
    }
}

/// The static edge a static line describes; its mask is 1 when missing or not a number.
pub open spec fn static_edge_of(f: Seq<Seq<char>>) -> Edge {
    Edge {
        source: usize_of(f[1]),
        target: usize_of(f[2]),
        mask: (if f.len() > 3 {
            parsed_or(f[3], u16::MAX as nat, 1)
        } else {
            1
        }) as u16,
    }
}

/// The static edges the lines list, each (source, target) pair once at its
/// first occurrence, with the masks of all its occurrences combined.
pub open spec fn static_edges_listed(fs: Seq<Seq<Seq<char>>>) -> Seq<Edge>
    decreases fs.len(),
{
    if fs.len() == 0 {
        Seq::empty()
    } else {
        let before = static_edges_listed(fs.drop_last());
        if is_static_line(fs.last()) {
            merge_edge(before, static_edge_of(fs.last()))
        } else {
            before
        }
    }
}

/// The position of the edge with the same ends, if there is one.
pub open spec fn same_ends_index(es: Seq<Edge>, e: Edge) -> Option<int> {
    if exists|i: int| 0 <= i < es.len() && es[i].source == e.source && es[i].target == e.target {
        Some(choose|i: int| 0 <= i < es.len() && es[i].source == e.source && es[i].target == e.target)
    } else {
        None
    }
}

/// `es` with `e` merged in: its mask added to the edge with the same ends,
/// or `e` appended.
pub open spec fn merge_edge(es: Seq<Edge>, e: Edge) -> Seq<Edge> {
    match same_ends_index(es, e) {
        Some(i) => es.update(i, Edge { mask: es[i].mask | e.mask, ..es[i] }),
        None => es.push(e),
    }
}

/// No two edges have the same ends.
pub open spec fn distinct_ends(es: Seq<Edge>) -> bool {
    forall|i: int, j: int|
        0 <= i < j < es.len() ==> !(#[trigger] es[i].source == #[trigger] es[j].source && es[i].target == es[j].target)
}

/// Members in order of their index.
pub open spec fn sorted_by_index(ms: Seq<MemberView>) -> bool {
    forall|i: int, j: int| 0 <= i < j < ms.len() ==> #[trigger] ms[i].member_index <= #[trigger] ms[j].member_index
}

/// The members with index `k`, in their order.
pub open spec fn with_index(ms: Seq<MemberView>, k: usize) -> Seq<MemberView>
    decreases ms.len(),
{
    if ms.len() == 0 {
        Seq::empty()
    } else {
        let p = with_index(ms.drop_last(), k);
        if ms.last().member_index == k {
            p.push(ms.last())
        } else {
            p
        }
    }
}

proof fn lemma_with_index_concat(a: Seq<MemberView>, b: Seq<MemberView>, k: usize)
    ensures
        with_index(a + b, k) == with_index(a, k) + with_index(b, k),
    decreases b.len(),
{
    if b.len() == 0 {
        assert(a + b =~= a);
        assert(with_index(b, k) =~= Seq::<MemberView>::empty());
        assert(with_index(a, k) + with_index(b, k) =~= with_index(a, k));
    } else {
        let b0 = b.drop_last();
        lemma_with_index_concat(a, b0, k);
        assert((a + b).drop_last() =~= a + b0);
        assert((a + b).last() == b.last());
        if b.last().member_index == k {
            assert(with_index(a, k) + with_index(b0, k).push(b.last()) =~= (with_index(a, k) + with_index(b0, k)).push(
                b.last(),
            ));
        }
    }
}

proof fn lemma_with_index_none(b: Seq<MemberView>, k: usize)
    requires
        forall|j: int| 0 <= j < b.len() ==> #[trigger] b[j].member_index != k,
    ensures
        with_index(b, k) == Seq::<MemberView>::empty(),
    decreases b.len(),
{
    if b.len() > 0 {
        let b0 = b.drop_last();
        assert forall|j: int| 0 <= j < b0.len() implies #[trigger] b0[j].member_index != k by {
            assert(b0[j] == b[j]);
        }
        lemma_with_index_none(b0, k);
        assert(b.last() == b[b.len() - 1]);
    }
}

/// Inserting `m` after every member of index at most its own and before the
/// rest appends it to the members of its index and leaves the others.
proof fn lemma_with_index_insert(ov: Seq<MemberView>, p: int, m: MemberView, k: usize)
    requires
        0 <= p <= ov.len(),
        forall|j: int| p <= j < ov.len() ==> #[trigger] ov[j].member_index > m.member_index,
    ensures
        with_index(ov.insert(p, m), k) == if m.member_index == k {
            with_index(ov, k).push(m)
        } else {
            with_index(ov, k)
        },
{
    let a = ov.subrange(0, p);
    let b = ov.subrange(p, ov.len() as int);
    assert(ov =~= a + b);
    assert(ov.insert(p, m) =~= a.push(m) + b);
    lemma_with_index_concat(a, b, k);
    lemma_with_index_concat(a.push(m), b, k);
    assert(a.push(m).drop_last() =~= a);
    if m.member_index == k {
        assert forall|j: int| 0 <= j < b.len() implies #[trigger] b[j].member_index != k by {
            assert(b[j] == ov[p + j]);
        }
        lemma_with_index_none(b, k);
        assert(with_index(a, k) + Seq::<MemberView>::empty() =~= with_index(a, k));
        assert(with_index(a, k).push(m) + Seq::<MemberView>::empty() =~= with_index(a, k).push(m));
    }
}

pub open spec fn member_views(ms: Seq<Member>) -> Seq<MemberView> {
    ms.map_values(|m: Member| m@)
}

/// The parsed dumps: members in order of their index, runtime edges, and
/// static edges.
pub struct EdgeDumps {
    pub members: Vec<Member>,
    pub runtime_edges: Vec<Edge>,
    pub static_edges: Vec<Edge>,
}

/// Whether the text is exactly `true`.
fn is_true(f: &Vec<char>) -> (r: bool)
    ensures
        r == (f@ == "true"@),
{
    proof {
        reveal_strlit("true");
    }
    if f.len() == 4 && f[0] == 't' && f[1] == 'r' && f[2] == 'u' && f[3] == 'e' {
        assert(f@ =~= "true"@);
        true
    } else {
        false
    }
}

/// The member a member line describes.
fn read_member(f: &Vec<Vec<char>>, index: usize) -> (m: Member)
    requires
        f@.len() >= 7,
        parses_usize(char_lists(f@)[1]),
        index == usize_of(char_lists(f@)[1]),
    ensures
        m@ == member_of(char_lists(f@)),
{
    let ghost fl = char_lists(f@);
    assert(fl[3] == f@[3]@ && fl[4] == f@[4]@ && fl[5] == f@[5]@ && fl[6] == f@[6]@);
    let address = string_from(&f[3]);
    let normalized = normalize_address(address.as_str());
    let sheet = sheet_of(address.as_str());
    let m = Member {
        member_index: index,
        address,
        normalized,
        sheet,
        dynamic: is_true(&f[4]),
        volatile: is_true(&f[5]),
        formula_debug: string_from(&f[6]),
    };
    assert(m@.sheet == address_sheet(fl[3]));
    m
}

/// The members and runtime edges of an edge dump, in line order; a
/// [`DumpError::BadNumber`] when an index, end or mask is not a number.
fn parse_dump_lines(text: &str) -> (r: Result<(Vec<Member>, Vec<Edge>), DumpError>)
    ensures
        r is Ok <==> forall|k: int| 0 <= k < body_fields(text@).len() ==> dump_line_parses(#[trigger] body_fields(text@)[k]),
        r matches Ok((ms, es)) ==> member_views(ms@) == members_listed(body_fields(text@)) && es@ == runtime_edges_listed(
            body_fields(text@),
        ),
        r matches Err(e) ==> e == DumpError::BadNumber,
{
    let chars = chars_of(text);
    let lines = lines_of(&chars);
    let ghost ls = char_lists(lines@);
    let ghost fs = body_fields(text@);
    let mut members: Vec<Member> = Vec::new();
    let mut edges: Vec<Edge> = Vec::new();
    if lines.len() == 0 {
        assert(members@ =~= Seq::<Member>::empty());
        assert(member_views(members@) =~= Seq::<MemberView>::empty());
        return Ok((members, edges));
    }
    assert(fs.len() == ls.len() - 1);
    let mut k: usize = 1;
    assert(fs.subrange(0, 0) =~= Seq::<Seq<Seq<char>>>::empty());
    assert(member_views(members@) =~= Seq::<MemberView>::empty());
    while k < lines.len()
        invariant
            ls == char_lists(lines@),
            ls == text_lines(text@),
            ls.len() > 0,
            fs == ls.drop_first().map_values(|l: Seq<char>| line_fields(l)),
            fs == body_fields(text@),
            fs.len() == ls.len() - 1,
            1 <= k <= ls.len(),
            forall|j: int| 0 <= j < k - 1 ==> dump_line_parses(#[trigger] fs[j]),
            member_views(members@) == members_listed(fs.subrange(0, k - 1)),
            edges@ == runtime_edges_listed(fs.subrange(0, k - 1)),
        decreases lines.len() - k,
    {
        let ghost pre = fs.subrange(0, k - 1);
        let ghost post = fs.subrange(0, k as int);
        assert(post.drop_last() =~= pre);
        assert(ls[k as int] == lines@[k as int]@);
        let f = fields_of(&lines[k]);
        assert(post.last() == char_lists(f@));
        let ghost fv = char_lists(f@);
        assert(fv.len() == f@.len());
        assert(f@.len() >= 1);
        assert(fv[0] == f@[0]@);
        if is_tag(&f[0], 'M') && f.len() >= 7 {
            assert(fv[1] == f@[1]@);
            match parse_unsigned_exec(&f[1], usize::MAX as u64) {
                Some(index) => {
                    let m = read_member(&f, index as usize);
                    let ghost before = member_views(members@);
                    members.push(m);
                    assert(member_views(members@) =~= before.push(m@));
                    assert(fv[0][0] == 'M');
                    assert(!is_runtime_line(fv));
                },
                None => {
                    assert(!dump_line_parses(fs[k - 1]));
                    assert(!dump_line_parses(body_fields(text@)[k - 1]));
                    return Err(DumpError::BadNumber);
                },
            }
        } else if is_tag(&f[0], 'R') && f.len() >= 4 {
            assert(fv[1] == f@[1]@ && fv[2] == f@[2]@ && fv[3] == f@[3]@);
            let source = parse_unsigned_exec(&f[1], usize::MAX as u64);
            let target = parse_unsigned_exec(&f[2], usize::MAX as u64);
            let mask = parse_unsigned_exec(&f[3], 65535);
            match (source, target, mask) {
                (Some(source), Some(target), Some(mask)) => {
                    edges.push(Edge { source: source as usize, target: target as usize, mask: mask as u16 });
                },
                _ => {
                    assert(!dump_line_parses(fs[k - 1]));
                    assert(!dump_line_parses(body_fields(text@)[k - 1]));
                    return Err(DumpError::BadNumber);
                },
            }
        }
        assert(fs[k - 1] == fv);
        assert(dump_line_parses(fs[k - 1]));
        k = k + 1;
    }
    assert(fs.subrange(0, k - 1) =~= fs);
    Ok((members, edges))
}

/// The static edges of a dump, merged (see [`static_edges_listed`]); a
/// [`DumpError::BadNumber`] when an end is not a number.
fn parse_static_lines(text: &str) -> (r: Result<Vec<Edge>, DumpError>)
    ensures
        r is Ok <==> forall|k: int| 0 <= k < body_fields(text@).len() ==> static_line_parses(#[trigger] body_fields(text@)[k]),
        r matches Ok(es) ==> es@ == static_edges_listed(body_fields(text@)) && distinct_ends(es@),
        r matches Err(e) ==> e == DumpError::BadNumber,
{
    let chars = chars_of(text);
    let lines = lines_of(&chars);
    let ghost ls = char_lists(lines@);
    let ghost fs = body_fields(text@);
    let mut edges: Vec<Edge> = Vec::new();
    if lines.len() == 0 {
        return Ok(edges);
    }
    let mut k: usize = 1;
    assert(fs.subrange(0, 0) =~= Seq::<Seq<Seq<char>>>::empty());
    while k < lines.len()
        invariant
            ls == char_lists(lines@),
            ls == text_lines(text@),
            ls.len() > 0,
            fs == ls.drop_first().map_values(|l: Seq<char>| line_fields(l)),
            fs == body_fields(text@),
            fs.len() == ls.len() - 1,
            1 <= k <= ls.len(),
            forall|j: int| 0 <= j < k - 1 ==> static_line_parses(#[trigger] fs[j]),
            edges@ == static_edges_listed(fs.subrange(0, k - 1)),
            distinct_ends(edges@),
        decreases lines.len() - k,
    {
        let ghost pre = fs.subrange(0, k - 1);
        let ghost post = fs.subrange(0, k as int);
        assert(post.drop_last() =~= pre);
        assert(ls[k as int] == lines@[k as int]@);
        let f = fields_of(&lines[k]);
        assert(post.last() == char_lists(f@));
        let ghost fv = char_lists(f@);
        assert(fv.len() == f@.len());
        assert(f@.len() >= 1);
        assert(fv[0] == f@[0]@);
        if is_tag(&f[0], 'S') && f.len() >= 3 {
            assert(fv[1] == f@[1]@ && fv[2] == f@[2]@);
            let source = parse_unsigned_exec(&f[1], usize::MAX as u64);
            let target = parse_unsigned_exec(&f[2], usize::MAX as u64);
            match (source, target) {
                (Some(source), Some(target)) => {
                    let mask: u16 = if f.len() > 3 {
                        assert(fv[3] == f@[3]@);
                        parse_or(&f[3], 65535, 1) as u16
                    } else {
                        1
                    };
                    let e = Edge { source: source as usize, target: target as usize, mask };
                    assert(e == static_edge_of(fv));
                    merge_into(&mut edges, e);
                },
                _ => {
                    assert(!static_line_parses(fs[k - 1]));
                    assert(!static_line_parses(body_fields(text@)[k - 1]));
                    return Err(DumpError::BadNumber);
                },
            }
        }
        k = k + 1;
    }
    assert(fs.subrange(0, k - 1) =~= fs);
    Ok(edges)
}

/// Merges an edge into a list of edges with distinct ends (see [`merge_edge`]).
fn merge_into(edges: &mut Vec<Edge>, e: Edge)
    requires
        distinct_ends(old(edges)@),
    ensures
        final(edges)@ == merge_edge(old(edges)@, e),
        distinct_ends(final(edges)@),
{
    let ghost es = edges@;
    assert(es == old(edges)@);
    let mut i: usize = 0;
    while i < edges.len()
        invariant
            edges@ == es,
            es == old(edges)@,
            distinct_ends(es),
            i <= es.len(),
            forall|j: int| 0 <= j < i ==> !(es[j].source == e.source && es[j].target == e.target),
        decreases edges.len() - i,
    {
        if edges[i].source == e.source && edges[i].target == e.target {
            assert(es[i as int].source == e.source && es[i as int].target == e.target);
            let ghost w = choose|j: int| 0 <= j < es.len() && es[j].source == e.source && es[j].target == e.target;
            proof {
                if w != i {
                    assert(distinct_ends(es));
                    if w < i {
                        assert(!(es[w].source == e.source && es[w].target == e.target));
                    } else {
                        assert(!(es[i as int].source == es[w].source && es[i as int].target == es[w].target));
                    }
                }
            }
            let old_edge = edges[i];
            let merged = Edge { source: old_edge.source, target: old_edge.target, mask: old_edge.mask | e.mask };
            edges.set(i, merged);
            assert(edges@ == es.update(i as int, merged));
            assert(w == i);
            assert(same_ends_index(es, e) == Some(i as int));
            assert(merged == (Edge { mask: es[i as int].mask | e.mask, ..es[i as int] }));
            assert(edges@ == merge_edge(es, e));
            assert forall|a: int, b: int| 0 <= a < b < edges@.len() implies !(#[trigger] edges@[a].source
                == #[trigger] edges@[b].source && edges@[a].target == edges@[b].target) by {
                assert(edges@[a].source == es[a].source && edges@[a].target == es[a].target);
                assert(edges@[b].source == es[b].source && edges@[b].target == es[b].target);
            }
            return;
        }
        i = i + 1;
    }
    assert(same_ends_index(es, e) is None);
    edges.push(e);
}

/// The members ordered by index; members with equal indices keep their order.
fn sort_members(members: Vec<Member>) -> (r: Vec<Member>)
    ensures
        sorted_by_index(member_views(r@)),
        member_views(r@).to_multiset() == member_views(members@).to_multiset(),
        forall|k: usize| #[trigger] with_index(member_views(r@), k) == with_index(member_views(members@), k),
{
    let mut out: Vec<Member> = Vec::new();
    let mut source = members;
    let ghost all = member_views(source@);
    let mut rest: Vec<Member> = Vec::new();
    assert(member_views(rest@) =~= Seq::<MemberView>::empty());
    proof {
        member_views(rest@).to_multiset_ensures();
    }
    assert(member_views(rest@).to_multiset() =~= vstd::multiset::Multiset::<MemberView>::empty());
    while source.len() > 0
        invariant
            member_views(source@).to_multiset().add(member_views(rest@).to_multiset()) == all.to_multiset(),
            source@.len() + rest@.len() == all.len(),
            member_views(source@) == all.take(source@.len() as int),
            forall|j: int| 0 <= j < rest@.len() ==> #[trigger] rest@[j]@ == all[all.len() - 1 - j],
        decreases source.len(),
    {
        let ghost sv = member_views(source@);
        let ghost rv = member_views(rest@);
        let m = source.pop().unwrap();
        assert(member_views(source@) =~= sv.drop_last());
        assert(sv =~= sv.drop_last().push(m@));
        assert(m@ == all[all.len() - 1 - rest@.len()]) by {
            assert(sv.last() == all.take(sv.len() as int)[sv.len() - 1]);
        }
        assert(member_views(source@) =~= all.take(source@.len() as int));
        rest.push(m);
        assert(member_views(rest@) =~= rv.push(m@));
        proof {
            vstd::seq_lib::to_multiset_build(sv.drop_last(), m@);
            vstd::seq_lib::to_multiset_build(rv, m@);
            assert(member_views(source@).to_multiset().add(member_views(rest@).to_multiset()) =~= all.to_multiset());
        }
    }
    assert(member_views(source@) =~= Seq::<MemberView>::empty());
    proof {
        member_views(source@).to_multiset_ensures();
    }
    assert(member_views(source@).to_multiset() =~= vstd::multiset::Multiset::<MemberView>::empty());
    assert(member_views(out@) =~= Seq::<MemberView>::empty());
    proof {
        member_views(out@).to_multiset_ensures();
    }
    assert(member_views(out@).to_multiset() =~= vstd::multiset::Multiset::<MemberView>::empty());
    assert(all.take(0) =~= Seq::<MemberView>::empty());
    while rest.len() > 0
        invariant
            sorted_by_index(member_views(out@)),
            member_views(out@).to_multiset().add(member_views(rest@).to_multiset()) == all.to_multiset(),
            rest@.len() <= all.len(),
            forall|j: int| 0 <= j < rest@.len() ==> #[trigger] rest@[j]@ == all[all.len() - 1 - j],
            forall|k: usize| #[trigger] with_index(member_views(out@), k) == with_index(all.take(all.len() - rest@.len()), k),
        decreases rest.len(),
    {
        let ghost rv = member_views(rest@);
        let ghost rest0 = rest@;
        let ghost done = all.len() - rest@.len();
        let m = rest.pop().unwrap();
        assert(m@ == all[done]) by {
            assert(m == rest0[rest0.len() - 1]);
            assert(rest0[rest0.len() - 1]@ == all[all.len() - 1 - (rest0.len() - 1)]);
        }
        assert forall|j: int| 0 <= j < rest@.len() implies #[trigger] rest@[j]@ == all[all.len() - 1 - j] by {
            assert(rest@[j] == rest0[j]);
        }
        assert(member_views(rest@) =~= rv.drop_last());
        assert(rv.last() == m@);
        proof {
            assert(rv =~= rv.drop_last().push(m@));
            vstd::seq_lib::to_multiset_build(rv.drop_last(), m@);
        }
        let mut p: usize = out.len();
        while p > 0 && out[p - 1].member_index > m.member_index
            invariant
                p <= out@.len(),
                sorted_by_index(member_views(out@)),
                forall|j: int| p <= j < out@.len() ==> #[trigger] out@[j].member_index > m.member_index,
            decreases p,
        {
            p = p - 1;
        }
        let ghost ov = member_views(out@);
        let ghost outv = out@;
        let ghost mv = m@;
        out.insert(p, m);
        proof {
            assert(member_views(out@) =~= ov.insert(p as int, m@));
            assert forall|j: int| p <= j < ov.len() implies #[trigger] ov[j].member_index > mv.member_index by {
                assert(ov[j] == outv[j]@);
            }
            assert forall|k: usize| #[trigger] with_index(member_views(out@), k) == with_index(all.take(done + 1), k) by {
                lemma_with_index_insert(ov, p as int, mv, k);
                assert(all.take(done + 1).drop_last() =~= all.take(done));
                assert(all.take(done + 1).last() == all[done]);
            }
            vstd::seq_lib::to_multiset_insert(ov, p as int, m@);
            assert(member_views(out@).to_multiset().add(member_views(rest@).to_multiset()) =~= all.to_multiset());
            let nv = member_views(out@);
            assert forall|a: int, b: int| 0 <= a < b < nv.len() implies #[trigger] nv[a].member_index
                <= #[trigger] nv[b].member_index by {
                if b == p {
                    if a < p {
                        assert(nv[a] == ov[a]);
                        if p > 0 {
                            assert(ov[a].member_index <= ov[p - 1].member_index);
                        }
                    }
                } else if a == p {
                    assert(nv[b] == ov[b - 1]);
                } else {
                    let a0 = if a < p { a } else { a - 1 };
                    let b0 = if b < p { b } else { b - 1 };
                    assert(nv[a] == ov[a0]);
                    assert(nv[b] == ov[b0]);
                }
            }
        }
    }
    assert(member_views(rest@) =~= Seq::<MemberView>::empty());
    proof {
        member_views(rest@).to_multiset_ensures();
    }
    assert(member_views(rest@).to_multiset() =~= vstd::multiset::Multiset::<MemberView>::empty());
    assert(all.take(all.len() as int) =~= all);
    out
}

/// Reads the edge dump and the static edge dump as the analysis does: the
/// members and runtime edges of the first (an error if a number does not
/// parse), the merged static edges of the second (likewise), the members
/// ordered by index (members of equal index in the order listed), and an
/// error when there are no members.
pub fn load_edge_dumps(dump: &str, static_dump: &str) -> (r: Result<EdgeDumps, DumpError>)
    ensures
        ({
            let fs = body_fields(dump@);
            let ss = body_fields(static_dump@);
            let dump_ok = forall|k: int| 0 <= k < fs.len() ==> dump_line_parses(#[trigger] fs[k]);
            let static_ok = forall|k: int| 0 <= k < ss.len() ==> static_line_parses(#[trigger] ss[k]);
            &&& (!dump_ok || !static_ok) <==> (r == Err::<EdgeDumps, DumpError>(DumpError::BadNumber))
            &&& (r == Err::<EdgeDumps, DumpError>(DumpError::NoMembers)) <==> (dump_ok && static_ok && members_listed(fs).len() == 0)
            &&& r is Ok ==> {
                let d = r->Ok_0;
                &&& sorted_by_index(member_views(d.members@))
                &&& member_views(d.members@).to_multiset() == members_listed(fs).to_multiset()
                &&& forall|k: usize| #[trigger] with_index(member_views(d.members@), k) == with_index(members_listed(fs), k)
                &&& d.runtime_edges@ == runtime_edges_listed(fs)
                &&& d.static_edges@ == static_edges_listed(ss)
            }
        }),
{
    let (members, runtime_edges) = match parse_dump_lines(dump) {
        Ok(parsed) => parsed,
        Err(e) => return Err(e),
    };
    let static_edges = match parse_static_lines(static_dump) {
        Ok(es) => es,
        Err(e) => return Err(e),
    };
    let members = sort_members(members);
    if members.len() == 0 {
        proof {
            member_views(members@).to_multiset_ensures();
            members_listed(body_fields(dump@)).to_multiset_ensures();
            if members_listed(body_fields(dump@)).len() > 0 {
                let x = members_listed(body_fields(dump@))[0];
                assert(members_listed(body_fields(dump@)).contains(x));
                assert(member_views(members@) =~= Seq::<MemberView>::empty());
            }
        }
        return Err(DumpError::NoMembers);
    }
    proof {
        member_views(members@).to_multiset_ensures();
        members_listed(body_fields(dump@)).to_multiset_ensures();
        assert(member_views(members@).contains(member_views(members@)[0]));
    }
    Ok(EdgeDumps { members, runtime_edges, static_edges })
}

} // verus!
