//! Edge dumps: tab-separated text files that list the members of a cycle
//! candidate (`M` lines) and the edges among them (`S` lines, with a bit
//! mask of the dependency families an edge came from), and the counts kept
//! of them.
use vstd::prelude::*;
use crate::order::{SortKey, insert_sorted, key_view, lemma_sorted_set_len, remove_sorted, sorted_by_key, value_set, views};
use crate::text::chars_of;

verus! {

/// The line-splitting state after a prefix of a text: the finished lines
/// and the line being read.
pub open spec fn line_split(t: Seq<char>) -> (Seq<Seq<char>>, Seq<char>)
    decreases t.len(),
{
    if t.len() == 0 {
        (Seq::empty(), Seq::empty())
    } else {
        let (done, cur) = line_split(t.drop_last());
        if t.last() == '\n' {
            (done.push(strip_cr(cur)), Seq::empty())
        } else {
            (done, cur.push(t.last()))
        }
    }
}

/// A line without the carriage return that ended it, if one did.
pub open spec fn strip_cr(s: Seq<char>) -> Seq<char> {
    if s.len() > 0 && s.last() == '\r' {
        s.drop_last()
    } else {
        s
    }
}

/// The lines of a text: split after each line feed, which is dropped with a
/// carriage return just before it; a last piece without a line feed is a
/// line when it is not empty.
pub open spec fn text_lines(t: Seq<char>) -> Seq<Seq<char>> {
    let (done, cur) = line_split(t);
    if cur.len() == 0 {
        done
    } else {
        done.push(cur)
    }
}

/// The field-splitting state after a prefix of a line.
pub open spec fn field_split(t: Seq<char>) -> (Seq<Seq<char>>, Seq<char>)
    decreases t.len(),
{
    if t.len() == 0 {
        (Seq::empty(), Seq::empty())
    } else {
        let (done, cur) = field_split(t.drop_last());
        if t.last() == '\t' {
            (done.push(cur), Seq::empty())
        } else {
            (done, cur.push(t.last()))
        }
    }
}

/// The tab-separated fields of a line; there is always at least one.
pub open spec fn line_fields(t: Seq<char>) -> Seq<Seq<char>> {
    let (done, cur) = field_split(t);
    done.push(cur)
}

/// A decimal digit, `0` to `9`.
pub open spec fn is_digit(c: char) -> bool {
    '0' <= c && c <= '9'
}

/// The value of a decimal digit.
fn digit_of(c: char) -> (r: u8)
    requires
        is_digit(c),
    ensures
        r as nat == (c as nat) - ('0' as nat),
        r < 10,
{
    if c == '0' {
        0
    } else if c == '1' {
        1
    } else if c == '2' {
        2
    } else if c == '3' {
        3
    } else if c == '4' {
        4
    } else if c == '5' {
        5
    } else if c == '6' {
        6
    } else if c == '7' {
        7
    } else if c == '8' {
        8
    } else {
        9
    }
}

/// The number a string of decimal digits writes.
pub open spec fn decimal_value(s: Seq<char>) -> nat
    decreases s.len(),
{
    if s.len() == 0 {
        0
    } else {
        decimal_value(s.drop_last()) * 10 + ((s.last() as nat) - ('0' as nat)) as nat
    }
}

/// The digits of an unsigned number: the text after an optional `+`.
pub open spec fn unsigned_digits(s: Seq<char>) -> Seq<char> {
    if s.len() > 0 && s[0] == '+' {
        s.drop_first()
    } else {
        s
    }
}

/// What parsing an unsigned integer type whose largest value is `max` gives:
/// the value of an optional `+` and at least one decimal digit, when it is
/// not above `max`.
pub open spec fn parse_unsigned(s: Seq<char>, max: nat) -> Option<nat> {
    let d = unsigned_digits(s);
    if d.len() > 0 && (forall|i: int| 0 <= i < d.len() ==> is_digit(#[trigger] d[i])) && decimal_value(d) <= max {
        Some(decimal_value(d))
    } else {
        None
    }
}

/// The parsed number, or `default` when the text is not one.
pub open spec fn parsed_or(s: Seq<char>, max: nat, default: nat) -> nat {
    match parse_unsigned(s, max) {
        Some(v) => v,
        None => default,
    }
}

/// The views of a list of character lists.
pub open spec fn char_lists(v: Seq<Vec<char>>) -> Seq<Seq<char>> {
    v.map_values(|x: Vec<char>| x@)
}

/// Splits characters into lines (see [`text_lines`]).
pub(crate) fn lines_of(t: &Vec<char>) -> (r: Vec<Vec<char>>)
    ensures
        char_lists(r@) == text_lines(t@),
{
    let mut done: Vec<Vec<char>> = Vec::new();
    let mut cur: Vec<char> = Vec::new();
    let mut i: usize = 0;
    while i < t.len()
        invariant
            i <= t@.len(),
            (char_lists(done@), cur@) == line_split(t@.subrange(0, i as int)),
        decreases t.len() - i,
    {
        let ghost pre = t@.subrange(0, i as int);
        let ghost post = t@.subrange(0, i + 1);
        assert(post.drop_last() =~= pre);
        assert(post.last() == t@[i as int]);
        let c = t[i];
        if c == '\n' {
            let n = cur.len();
            if n > 0 && cur[n - 1] == '\r' {
                let ghost before = cur@;
                cur.pop();
                assert(cur@ =~= before.drop_last());
            }
            let ghost d = done@;
            done.push(cur);
            assert(char_lists(done@) =~= char_lists(d).push(strip_cr(line_split(pre).1)));
            cur = Vec::new();
        } else {
            cur.push(c);
        }
        i = i + 1;
    }
    assert(t@.subrange(0, i as int) =~= t@);
    if cur.len() > 0 {
        let ghost d = done@;
        done.push(cur);
        assert(char_lists(done@) =~= char_lists(d).push(line_split(t@).1));
    }
    done
}

/// Splits a line into its tab-separated fields (see [`line_fields`]).
pub(crate) fn fields_of(t: &Vec<char>) -> (r: Vec<Vec<char>>)
    ensures
        char_lists(r@) == line_fields(t@),
{
    let mut done: Vec<Vec<char>> = Vec::new();
    let mut cur: Vec<char> = Vec::new();
    let mut i: usize = 0;
    while i < t.len()
        invariant
            i <= t@.len(),
            (char_lists(done@), cur@) == field_split(t@.subrange(0, i as int)),
        decreases t.len() - i,
    {
        let ghost pre = t@.subrange(0, i as int);
        let ghost post = t@.subrange(0, i + 1);
        assert(post.drop_last() =~= pre);
        assert(post.last() == t@[i as int]);
        let c = t[i];
        if c == '\t' {
            let ghost d = done@;
            done.push(cur);
            assert(char_lists(done@) =~= char_lists(d).push(field_split(pre).1));
            cur = Vec::new();
        } else {
            cur.push(c);
        }
        i = i + 1;
    }
    assert(t@.subrange(0, i as int) =~= t@);
    let ghost d = done@;
    done.push(cur);
    assert(char_lists(done@) =~= char_lists(d).push(field_split(t@).1));
    done
}

proof fn lemma_capped_step(a: nat, d: nat, cap: nat)
    requires
        d < 10,
        cap > 0,
    ensures
        (if (if a < cap { a } else { cap }) * 10 + d < cap { (if a < cap { a } else { cap }) * 10 + d } else { cap })
            == (if a * 10 + d < cap { a * 10 + d } else { cap }),
{
}

/// Parses an unsigned number (see [`parse_unsigned`]) whose largest value is `max`.
pub(crate) fn parse_unsigned_exec(s: &Vec<char>, max: u64) -> (r: Option<u64>)
    ensures
        r matches Some(v) ==> parse_unsigned(s@, max as nat) == Some(v as nat),
        r is None ==> parse_unsigned(s@, max as nat) is None,
{
    let ghost d = unsigned_digits(s@);
    let start: usize = if s.len() > 0 && s[0] == '+' {
        1
    } else {
        0
    };
    assert(d =~= s@.subrange(start as int, s@.len() as int));
    if start >= s.len() {
        return None;
    }
    let mut j: usize = start;
    while j < s.len()
        invariant
            start <= j <= s@.len(),
            d == unsigned_digits(s@),
            d =~= s@.subrange(start as int, s@.len() as int),
            forall|i: int| 0 <= i < j - start ==> is_digit(#[trigger] d[i]),
        decreases s.len() - j,
    {
        if !('0' <= s[j] && s[j] <= '9') {
            assert(d[j - start] == s@[j as int]);
            assert(!is_digit(d[j - start]));
            assert(!(forall|i: int| 0 <= i < d.len() ==> is_digit(#[trigger] d[i])));
            return None;
        }
        j = j + 1;
    }
    let cap: u128 = max as u128 + 1;
    let mut v: u128 = 0;
    let mut k: usize = start;
    while k < s.len()
        invariant
            start <= k <= s@.len(),
            d == unsigned_digits(s@),
            d =~= s@.subrange(start as int, s@.len() as int),
            forall|i: int| 0 <= i < d.len() ==> is_digit(#[trigger] d[i]),
            cap == max + 1,
            v == (if decimal_value(d.subrange(0, k - start)) < cap {
                decimal_value(d.subrange(0, k - start))
            } else {
                cap as nat
            }),
        decreases s.len() - k,
    {
        let ghost pre = d.subrange(0, k - start);
        let ghost post = d.subrange(0, k - start + 1);
        assert(post.drop_last() =~= pre);
        assert(is_digit(d[k - start]));
        assert(post.last() == s@[k as int]);
        let digit = digit_of(s[k]) as u128;
        proof {
            lemma_capped_step(decimal_value(pre), digit as nat, cap as nat);
        }
        let next = v * 10 + digit;
        v = if next < cap {
            next
        } else {
            cap
        };
        k = k + 1;
    }
    assert(d.subrange(0, d.len() as int) =~= d);
    if v < cap {
        Some(v as u64)
    } else {
        None
    }
}

/// Member indices sort as numbers.
impl SortKey for usize {
    open spec fn sort_key(v: usize) -> Seq<int> {
        seq![v as int]
    }

    proof fn lemma_sort_key_injective(a: usize, b: usize) {
        assert(seq![a as int][0] == a as int);
        assert(seq![b as int][0] == b as int);
    }

    fn key_words(&self) -> (k: Vec<u64>) {
        let k = vec![*self as u64];
        assert(key_view(k@) =~= seq![*self as int]);
        k
    }
}

/// Edges sort by source, then target.
impl SortKey for (usize, usize) {
    open spec fn sort_key(v: (usize, usize)) -> Seq<int> {
        seq![v.0 as int, v.1 as int]
    }

    proof fn lemma_sort_key_injective(a: (usize, usize), b: (usize, usize)) {
        assert(seq![a.0 as int, a.1 as int][0] == a.0 as int);
        assert(seq![a.0 as int, a.1 as int][1] == a.1 as int);
        assert(seq![b.0 as int, b.1 as int][0] == b.0 as int);
        assert(seq![b.0 as int, b.1 as int][1] == b.1 as int);
    }

    fn key_words(&self) -> (k: Vec<u64>) {
        let k = vec![self.0 as u64, self.1 as u64];
        assert(key_view(k@) =~= seq![self.0 as int, self.1 as int]);
        k
    }
}

/// What one line of an edge dump says.
#[derive(Clone, Copy, Debug, PartialEq, Eq)]
pub enum DumpLine {
    /// A member: its index and whether its address names a sheet (holds `!`).
    Member(usize, bool),
    /// An edge: source, target and the bit mask of the families it came from.
    Edge(usize, usize, u16),
    Other,
}

/// The line's record: an `M` line with at least four fields is a member, an
/// `S` line with at least three fields an edge (when edges are read); an
/// index that is not a number counts as the largest `usize`, a mask that is
/// missing or not a number as 1.
pub open spec fn dump_line(line: Seq<char>, edges: bool) -> DumpLine {
    let f = line_fields(line);
    if f[0] == seq!['M'] && f.len() >= 4 {
        DumpLine::Member(parsed_or(f[1], usize::MAX as nat, usize::MAX as nat) as usize, f[3].contains('!'))
    } else if edges && f[0] == seq!['S'] && f.len() >= 3 {
        DumpLine::Edge(
            parsed_or(f[1], usize::MAX as nat, usize::MAX as nat) as usize,
            parsed_or(f[2], usize::MAX as nat, usize::MAX as nat) as usize,
            (if f.len() > 3 {
                parsed_or(f[3], u16::MAX as nat, 1)
            } else {
                1
            }) as u16,
        )
    } else {
        DumpLine::Other
    }
}

/// The records of some lines.
pub open spec fn records_of(lines: Seq<Seq<char>>, edges: bool) -> Seq<DumpLine> {
    lines.map_values(|l: Seq<char>| dump_line(l, edges))
}

/// The records of a dump: every line but the first, which is a header.
pub open spec fn dump_records(t: Seq<char>, edges: bool) -> Seq<DumpLine> {
    let ls = text_lines(t);
    if ls.len() == 0 {
        Seq::empty()
    } else {
        records_of(ls.drop_first(), edges)
    }
}

/// The members by index; a later line for an index replaces an earlier one.
pub open spec fn member_map(r: Seq<DumpLine>) -> Map<usize, bool>
    decreases r.len(),
{
    if r.len() == 0 {
        Map::empty()
    } else {
        let m = member_map(r.drop_last());
        match r.last() {
            DumpLine::Member(i, b) => m.insert(i, b),
            _ => m,
        }
    }
}

/// The member indices whose last line says `kind` (true: a cell address).
pub open spec fn members_of_kind(m: Map<usize, bool>, kind: bool) -> Set<usize> {
    m.dom().filter(|i: usize| m[i] == kind)
}

/// The (source, target) pairs of the edges whose mask has a bit of `bit`.
pub open spec fn edge_pairs(r: Seq<DumpLine>, bit: u16) -> Set<(usize, usize)> {
    Set::new(
        |p: (usize, usize)|
            exists|k: int|
                0 <= k < r.len() && (#[trigger] r[k] matches DumpLine::Edge(s, t, m) && s == p.0 && t == p.1 && m
                    & bit != 0),
    )
}

/// The sources of the edges whose mask has a bit of `bit`.
pub open spec fn edge_sources(r: Seq<DumpLine>, bit: u16) -> Set<usize> {
    Set::new(
        |x: usize|
            exists|k: int| 0 <= k < r.len() && (#[trigger] r[k] matches DumpLine::Edge(s, _t, m) && s == x && m & bit != 0),
    )
}

/// The counts kept of an edge dump.
#[derive(Clone, Copy, Debug, Default, PartialEq, Eq)]
pub struct DumpStats {
    pub member_count: usize,
    pub cell_member_count: usize,
    pub name_member_count: usize,
    pub direct_pairs: usize,
    pub range_sources: usize,
    pub name_sources: usize,
    pub dynamic_sources: usize,
}

/// The counts of some records: distinct members, members with a cell and
/// with a name address, distinct pairs with a direct-cell edge, and
/// distinct sources with a range (bit 2), name (bit 16) or dynamic (bit 64)
/// edge.
pub open spec fn dump_stats(r: Seq<DumpLine>) -> DumpStats {
    let m = member_map(r);
    DumpStats {
        member_count: m.dom().len() as usize,
        cell_member_count: members_of_kind(m, true).len() as usize,
        name_member_count: members_of_kind(m, false).len() as usize,
        direct_pairs: edge_pairs(r, 1).len() as usize,
        range_sources: edge_sources(r, 2).len() as usize,
        name_sources: edge_sources(r, 16).len() as usize,
        dynamic_sources: edge_sources(r, 64).len() as usize,
    }
}

proof fn lemma_edge_sets_push(r: Seq<DumpLine>, x: DumpLine, bit: u16)
    ensures
        edge_pairs(r.push(x), bit) == (match x {
            DumpLine::Edge(s, t, m) => if m & bit != 0 {
                edge_pairs(r, bit).insert((s, t))
            } else {
                edge_pairs(r, bit)
            },
            _ => edge_pairs(r, bit),
        }),
        edge_sources(r.push(x), bit) == (match x {
            DumpLine::Edge(s, _t, m) => if m & bit != 0 {
                edge_sources(r, bit).insert(s)
            } else {
                edge_sources(r, bit)
            },
            _ => edge_sources(r, bit),
        }),
{
    let q = r.push(x);
    assert forall|k: int| 0 <= k < r.len() implies #[trigger] q[k] == r[k] by {}
    assert(q[r.len() as int] == x);
    let a = edge_pairs(q, bit);
    let b = match x {
        DumpLine::Edge(s, t, m) => if m & bit != 0 {
            edge_pairs(r, bit).insert((s, t))
        } else {
            edge_pairs(r, bit)
        },
        _ => edge_pairs(r, bit),
    };
    assert forall|p: (usize, usize)| a.contains(p) <==> b.contains(p) by {
        if a.contains(p) {
            let k = choose|k: int|
                0 <= k < q.len() && (#[trigger] q[k] matches DumpLine::Edge(s, t, m) && s == p.0 && t == p.1 && m & bit
                    != 0);
            if k < r.len() {
                assert(r[k] == q[k]);
            }
        }
        if edge_pairs(r, bit).contains(p) {
            let k = choose|k: int|
                0 <= k < r.len() && (#[trigger] r[k] matches DumpLine::Edge(s, t, m) && s == p.0 && t == p.1 && m & bit
                    != 0);
            assert(q[k] == r[k]);
        }
    }
    assert(a =~= b);
    let c = edge_sources(q, bit);
    let d = match x {
        DumpLine::Edge(s, _t, m) => if m & bit != 0 {
            edge_sources(r, bit).insert(s)
        } else {
            edge_sources(r, bit)
        },
        _ => edge_sources(r, bit),
    };
    assert forall|y: usize| c.contains(y) <==> d.contains(y) by {
        if c.contains(y) {
            let k = choose|k: int| 0 <= k < q.len() && (#[trigger] q[k] matches DumpLine::Edge(s, _t, m) && s == y && m & bit != 0);
            if k < r.len() {
                assert(r[k] == q[k]);
            }
        }
        if edge_sources(r, bit).contains(y) {
            let k = choose|k: int| 0 <= k < r.len() && (#[trigger] r[k] matches DumpLine::Edge(s, _t, m) && s == y && m & bit != 0);
            assert(q[k] == r[k]);
        }
    }
    assert(c =~= d);
}

/// Whether a field is exactly the one character `c`.
pub(crate) fn is_tag(f: &Vec<char>, c: char) -> (r: bool)
    ensures
        r == (f@ == seq![c]),
{
    if f.len() == 1 && f[0] == c {
        assert(f@ =~= seq![c]);
        true
    } else {
        false
    }
}

/// Whether a field holds the character `c`.
fn has_char(f: &Vec<char>, c: char) -> (r: bool)
    ensures
        r == f@.contains(c),
{
    let mut i: usize = 0;
    while i < f.len()
        invariant
            i <= f@.len(),
            forall|j: int| 0 <= j < i ==> f@[j] != c,
        decreases f.len() - i,
    {
        if f[i] == c {
            return true;
        }
        i = i + 1;
    }
    false
}

/// The parsed number, or `default` (see [`parsed_or`]).
pub(crate) fn parse_or(s: &Vec<char>, max: u64, default: u64) -> (r: u64)
    ensures
        r as nat == parsed_or(s@, max as nat, default as nat),
{
    match parse_unsigned_exec(s, max) {
        Some(v) => v,
        None => default,
    }
}

/// Reads one line of a dump (see [`dump_line`]).
fn read_line(line: &Vec<char>, edges: bool) -> (r: DumpLine)
    ensures
        r == dump_line(line@, edges),
{
    let f = fields_of(line);
    assert(char_lists(f@).len() == f@.len());
    assert(f@.len() >= 1);
    assert(char_lists(f@)[0] == f@[0]@);
    if is_tag(&f[0], 'M') && f.len() >= 4 {
        assert(char_lists(f@)[1] == f@[1]@);
        assert(char_lists(f@)[3] == f@[3]@);
        let index = parse_or(&f[1], usize::MAX as u64, usize::MAX as u64) as usize;
        DumpLine::Member(index, has_char(&f[3], '!'))
    } else if edges && is_tag(&f[0], 'S') && f.len() >= 3 {
        assert(char_lists(f@)[1] == f@[1]@);
        assert(char_lists(f@)[2] == f@[2]@);
        let source = parse_or(&f[1], usize::MAX as u64, usize::MAX as u64) as usize;
        let target = parse_or(&f[2], usize::MAX as u64, usize::MAX as u64) as usize;
        let mask = if f.len() > 3 {
            assert(char_lists(f@)[3] == f@[3]@);
            parse_or(&f[3], 65535, 1) as u16
        } else {
            1
        };
        DumpLine::Edge(source, target, mask)
    } else {
        DumpLine::Other
    }
}

/// Reads the records of a dump and counts them (see [`dump_stats`]).
fn read_dump(text: &str, edges: bool) -> (r: DumpStats)
    ensures
        r == dump_stats(dump_records(text@, edges)),
{
    let chars = chars_of(text);
    let lines = lines_of(&chars);
    let ghost ls = char_lists(lines@);
    assert(edge_pairs(Seq::<DumpLine>::empty(), 1) =~= Set::<(usize, usize)>::empty());
    assert(edge_sources(Seq::<DumpLine>::empty(), 2) =~= Set::<usize>::empty());
    assert(edge_sources(Seq::<DumpLine>::empty(), 16) =~= Set::<usize>::empty());
    assert(edge_sources(Seq::<DumpLine>::empty(), 64) =~= Set::<usize>::empty());
    assert(members_of_kind(Map::<usize, bool>::empty(), true) =~= Set::<usize>::empty());
    assert(members_of_kind(Map::<usize, bool>::empty(), false) =~= Set::<usize>::empty());
    if lines.len() == 0 {
        assert(dump_records(text@, edges) =~= Seq::<DumpLine>::empty());
        assert(Map::<usize, bool>::empty().dom() =~= Set::<usize>::empty());
        return DumpStats {
            member_count: 0,
            cell_member_count: 0,
            name_member_count: 0,
            direct_pairs: 0,
            range_sources: 0,
            name_sources: 0,
            dynamic_sources: 0,
        };
    }
    let mut all: Vec<usize> = Vec::new();
    let mut cells: Vec<usize> = Vec::new();
    let mut names: Vec<usize> = Vec::new();
    let mut direct: Vec<(usize, usize)> = Vec::new();
    let mut ranges: Vec<usize> = Vec::new();
    let mut named: Vec<usize> = Vec::new();
    let mut dynamic: Vec<usize> = Vec::new();
    let mut k: usize = 1;
    assert(records_of(ls.subrange(1, 1), edges) =~= Seq::<DumpLine>::empty());
    assert(value_set(all@) =~= Set::<usize>::empty());
    assert(Map::<usize, bool>::empty().dom() =~= Set::<usize>::empty());
    while k < lines.len()
        invariant
            ls == char_lists(lines@),
            ls == text_lines(text@),
            1 <= k,
            k <= ls.len(),
            ({
                let pre = records_of(ls.subrange(1, k as int), edges);
                let m = member_map(pre);
                &&& value_set(all@) == m.dom()
                &&& value_set(cells@) == members_of_kind(m, true)
                &&& value_set(names@) == members_of_kind(m, false)
                &&& value_set(direct@) == edge_pairs(pre, 1)
                &&& value_set(ranges@) == edge_sources(pre, 2)
                &&& value_set(named@) == edge_sources(pre, 16)
                &&& value_set(dynamic@) == edge_sources(pre, 64)
            }),
            sorted_by_key::<usize>(views(all@)),
            sorted_by_key::<usize>(views(cells@)),
            sorted_by_key::<usize>(views(names@)),
            sorted_by_key::<(usize, usize)>(views(direct@)),
            sorted_by_key::<usize>(views(ranges@)),
            sorted_by_key::<usize>(views(named@)),
            sorted_by_key::<usize>(views(dynamic@)),
        decreases lines.len() - k,
    {
        let ghost pre = records_of(ls.subrange(1, k as int), edges);
        let ghost m0 = member_map(pre);
        assert(ls[k as int] == lines@[k as int]@);
        let rec = read_line(&lines[k], edges);
        let ghost post = records_of(ls.subrange(1, k + 1), edges);
        assert(post =~= pre.push(rec));
        assert(post.drop_last() =~= pre);
        proof {
            lemma_edge_sets_push(pre, rec, 1);
            lemma_edge_sets_push(pre, rec, 2);
            lemma_edge_sets_push(pre, rec, 16);
            lemma_edge_sets_push(pre, rec, 64);
        }
        match rec {
            DumpLine::Member(i, is_cell) => {
                insert_sorted(&mut all, i);
                if is_cell {
                    insert_sorted(&mut cells, i);
                    remove_sorted(&mut names, &i);
                } else {
                    insert_sorted(&mut names, i);
                    remove_sorted(&mut cells, &i);
                }
                let ghost m1 = m0.insert(i, is_cell);
                assert(member_map(post) == m1);
                assert(members_of_kind(m1, true) =~= (if is_cell {
                    members_of_kind(m0, true).insert(i)
                } else {
                    members_of_kind(m0, true).remove(i)
                }));
                assert(members_of_kind(m1, false) =~= (if is_cell {
                    members_of_kind(m0, false).remove(i)
                } else {
                    members_of_kind(m0, false).insert(i)
                }));
                assert(value_set(all@) =~= m1.dom());
            },
            DumpLine::Edge(source, target, mask) => {
                if mask & 1 != 0 {
                    insert_sorted(&mut direct, (source, target));
                }
                if mask & 2 != 0 {
                    insert_sorted(&mut ranges, source);
                }
                if mask & 16 != 0 {
                    insert_sorted(&mut named, source);
                }
                if mask & 64 != 0 {
                    insert_sorted(&mut dynamic, source);
                }
                assert(member_map(post) == m0);
            },
            DumpLine::Other => {
                assert(member_map(post) == m0);
            },
        }
        k = k + 1;
    }
    let ghost recs = dump_records(text@, edges);
    proof {
        assert(ls.subrange(1, k as int) =~= ls.drop_first());
        lemma_sorted_set_len::<usize>(views(all@));
        lemma_sorted_set_len::<usize>(views(cells@));
        lemma_sorted_set_len::<usize>(views(names@));
        lemma_sorted_set_len::<(usize, usize)>(views(direct@));
        lemma_sorted_set_len::<usize>(views(ranges@));
        lemma_sorted_set_len::<usize>(views(named@));
        lemma_sorted_set_len::<usize>(views(dynamic@));
    }
    DumpStats {
        member_count: all.len(),
        cell_member_count: cells.len(),
        name_member_count: names.len(),
        direct_pairs: direct.len(),
        range_sources: ranges.len(),
        name_sources: named.len(),
        dynamic_sources: dynamic.len(),
    }
}

/// The counts of a static edge dump: its members (`M` lines) and its edges
/// (`S` lines); see [`dump_stats`].
pub fn parse_static_dump(text: &str) -> (r: DumpStats)
    ensures
        r == dump_stats(dump_records(text@, true)),
{
    read_dump(text, true)
}

/// The counts of a runtime edge dump: only its members (`M` lines) count;
/// the edge counts are 0.
pub fn parse_runtime_dump(text: &str) -> (r: DumpStats)
    ensures
        r == dump_stats(dump_records(text@, false)),
        r.direct_pairs == 0 && r.range_sources == 0 && r.name_sources == 0 && r.dynamic_sources == 0,
{
    let r = read_dump(text, false);
    proof {
        lemma_no_edges(dump_records(text@, false), text@);
    }
    r
}

proof fn lemma_no_edges(r: Seq<DumpLine>, t: Seq<char>)
    requires
        r == dump_records(t, false),
    ensures
        edge_pairs(r, 1) == Set::<(usize, usize)>::empty(),
        edge_sources(r, 2) == Set::<usize>::empty(),
        edge_sources(r, 16) == Set::<usize>::empty(),
        edge_sources(r, 64) == Set::<usize>::empty(),
{
    assert forall|k: int| 0 <= k < r.len() implies !(#[trigger] r[k] is Edge) by {
        let ls = text_lines(t);
        assert(r[k] == dump_line(ls.drop_first()[k], false));
    }
    assert(edge_pairs(r, 1) =~= Set::<(usize, usize)>::empty());
    assert(edge_sources(r, 2) =~= Set::<usize>::empty());
    assert(edge_sources(r, 16) =~= Set::<usize>::empty());
    assert(edge_sources(r, 64) =~= Set::<usize>::empty());
}

/// What the counts of a static and a runtime dump say about the heavy
/// workbook's dependency model.
#[derive(Clone, Copy, Debug, PartialEq, Eq)]
pub struct DumpSummary {
    /// The members with a cell address, when there are some.
    pub formula_vertices: Option<usize>,
    /// The members with a name, when there are some.
    pub name_definition_count: Option<usize>,
    pub symbolic_range_descriptor_count: usize,
    pub selector_descriptor_count: usize,
    /// Direct pairs and range, name and dynamic sources together (saturating).
    pub invalidation_dependency_count: usize,
    pub direct_static_edge_count: usize,
    /// One of the dumps had no member records.
    pub missing_members: bool,
}

/// `a + b`, or the largest `usize` when that does not fit.
pub open spec fn sat_sum(a: int, b: int) -> usize {
    if a + b > usize::MAX {
        usize::MAX
    } else {
        (a + b) as usize
    }
}

/// Summarizes the counts of a static and a runtime dump.
pub fn summarize_dumps(static_stats: &DumpStats, runtime_stats: &DumpStats) -> (r: DumpSummary)
    ensures
        r.formula_vertices == if static_stats.cell_member_count > 0 {
            Some(static_stats.cell_member_count)
        } else {
            None::<usize>
        },
        r.name_definition_count == if static_stats.name_member_count > 0 {
            Some(static_stats.name_member_count)
        } else {
            None::<usize>
        },
        r.symbolic_range_descriptor_count == static_stats.range_sources,
        r.selector_descriptor_count == static_stats.dynamic_sources,
        r.invalidation_dependency_count == sat_sum(
            sat_sum(sat_sum(static_stats.direct_pairs as int, static_stats.range_sources as int) as int, static_stats.name_sources as int) as int,
            static_stats.dynamic_sources as int,
        ),
        r.direct_static_edge_count == static_stats.direct_pairs,
        r.missing_members == (static_stats.member_count == 0 || runtime_stats.member_count == 0),
{
    DumpSummary {
        formula_vertices: if static_stats.cell_member_count > 0 {
            Some(static_stats.cell_member_count)
        } else {
            None
        },
        name_definition_count: if static_stats.name_member_count > 0 {
            Some(static_stats.name_member_count)
        } else {
            None
        },
        symbolic_range_descriptor_count: static_stats.range_sources,
        selector_descriptor_count: static_stats.dynamic_sources,
        invalidation_dependency_count: static_stats.direct_pairs.saturating_add(static_stats.range_sources).saturating_add(
            static_stats.name_sources,
        ).saturating_add(static_stats.dynamic_sources),
        direct_static_edge_count: static_stats.direct_pairs,
        missing_members: static_stats.member_count == 0 || runtime_stats.member_count == 0,
    }
}

} // verus!
