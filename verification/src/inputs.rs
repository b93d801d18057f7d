//! What the graph analysis reads from its JSON inputs: the member addresses
//! a baseline run changed, the mismatch entries of the mismatch inventory,
//! and which report group a graph variant belongs to by its name.
use vstd::prelude::*;
use crate::analysis::MismatchItem;
use crate::compatibility::opt_text;
use crate::json::{
    item_pointer, item_pointer_exec, json_array_len, json_array_len_at, json_parses, json_str_at, json_str_at_pointer,
    json_strings_at, json_well_formed, strings_at,
};
use crate::text::{chars_of, occurs_at, push_char, push_str, string_of};

verus! {

/// The texts of an optional list of strings.
pub open spec fn opt_texts(o: Option<Vec<String>>) -> Option<Seq<Seq<char>>> {
    match o {
        Some(v) => Some(v@.map_values(|s: String| s@)),
        None => None,
    }
}

/// What stands for an item of a feature list that is not a string.
pub open spec fn non_text_feature() -> Seq<char> {
    seq!['\u{0}'] + "non-text"@
}

/// The first `n` items of the array at `base` as texts, an item that is not
/// a string standing as [`non_text_feature`].
pub open spec fn feature_items(text: Seq<char>, base: Seq<char>, n: nat) -> Seq<Seq<char>>
    decreases n,
{
    if n == 0 {
        Seq::empty()
    } else {
        feature_items(text, base, (n - 1) as nat).push(
            match json_str_at(text, item_pointer(base, (n - 1) as nat)) {
                Some(s) => s,
                None => non_text_feature(),
            },
        )
    }
}

/// The feature list at `base`: its items as texts, or none when there is
/// no array there.
pub open spec fn json_features_at(text: Seq<char>, base: Seq<char>) -> Option<Seq<Seq<char>>> {
    match json_array_len(text, base) {
        Some(n) => Some(feature_items(text, base, n as nat)),
        None => None,
    }
}

/// `m` is the mismatch entry at pointer `p` of the inventory `text`: its
/// `address`, `formula_features`, `category` and `formualizer/error_kind`.
pub open spec fn item_read_from(m: MismatchItem, text: Seq<char>, p: Seq<char>) -> bool {
    &&& opt_text(m.address) == json_str_at(text, p + "/address"@)
    &&& opt_texts(m.formula_features) == json_features_at(text, p + "/formula_features"@)
    &&& opt_text(m.category) == json_str_at(text, p + "/category"@)
    &&& opt_text(m.error_kind) == json_str_at(text, p + "/formualizer/error_kind"@)
}

/// The number of mismatch entries the inventory lists (none when it lists
/// no array of them).
pub open spec fn mismatch_count(text: Seq<char>) -> nat {
    match json_array_len(text, "/main_scc_mismatches"@) {
        Some(n) => n as nat,
        None => 0,
    }
}

fn text_option(text: &str, pointer: &str) -> (r: Option<String>)
    ensures
        opt_text(r) == json_str_at(text@, pointer@),
{
    json_str_at_pointer(text, pointer)
}

fn pointer_with(base: &str, suffix: &str) -> (r: String)
    ensures
        r@ == base@ + suffix@,
{
    let mut p = string_of(base);
    push_str(&mut p, suffix);
    p
}

fn features_at(text: &str, base: &str) -> (r: Option<Vec<String>>)
    ensures
        opt_texts(r) == json_features_at(text@, base@),
{
    let n = match json_array_len_at(text, base) {
        Some(n) => n,
        None => {
            return None;
        },
    };
    let mut out: Vec<String> = Vec::new();
    let mut i: usize = 0;
    while i < n
        invariant
            i <= n,
            json_array_len(text@, base@) == Some(n),
            out@.map_values(|s: String| s@) == feature_items(text@, base@, i as nat),
        decreases n - i,
    {
        let p = item_pointer_exec(base, i);
        let item = match json_str_at_pointer(text, p.as_str()) {
            Some(s) => s,
            None => {
                let mut s = String::new();
                push_char(&mut s, '\u{0}');
                push_str(&mut s, "non-text");
                assert(s@ =~= non_text_feature());
                s
            },
        };
        let ghost before = out@;
        out.push(item);
        assert(out@.map_values(|s: String| s@) =~= before.map_values(|s: String| s@).push(item@));
        i = i + 1;
    }
    Some(out)
}

/// The mismatch entries of the inventory (the array `main_scc_mismatches`,
/// none when it has none), each read as [`item_read_from`] says; none when
/// the text is not JSON.
pub fn mismatch_items(inventory: &str) -> (r: Option<Vec<MismatchItem>>)
    ensures
        r is None <==> !json_well_formed(inventory@),
        r is Some ==> r->0@.len() == mismatch_count(inventory@) && forall|i: int|
            0 <= i < r->0@.len() ==> #[trigger] item_read_from(
                r->0@[i],
                inventory@,
                item_pointer("/main_scc_mismatches"@, i as nat),
            ),
{
    if !json_parses(inventory) {
        return None;
    }
    let n = match json_array_len_at(inventory, "/main_scc_mismatches") {
        Some(n) => n,
        None => 0,
    };
    let mut out: Vec<MismatchItem> = Vec::new();
    let mut i: usize = 0;
    while i < n
        invariant
            i <= n,
            n == mismatch_count(inventory@),
            out@.len() == i,
            forall|j: int|
                0 <= j < i ==> #[trigger] item_read_from(out@[j], inventory@, item_pointer("/main_scc_mismatches"@, j as nat)),
        decreases n - i,
    {
        let p = item_pointer_exec("/main_scc_mismatches", i);
        let address = text_option(inventory, pointer_with(p.as_str(), "/address").as_str());
        let formula_features = features_at(inventory, pointer_with(p.as_str(), "/formula_features").as_str());
        let category = text_option(inventory, pointer_with(p.as_str(), "/category").as_str());
        let error_kind = text_option(inventory, pointer_with(p.as_str(), "/formualizer/error_kind").as_str());
        out.push(MismatchItem { address, formula_features, category, error_kind });
        i = i + 1;
    }
    Some(out)
}

/// The pointer to the addresses a baseline run's first pass changed.
pub open spec fn changed_addresses_pointer() -> Seq<char> {
    "/steps/0/main_passes/0/changed_member_addresses"@
}

/// The member addresses the first main pass of the first step of a baseline
/// run changed (the strings of that array, see [`json_strings_at`]); none
/// when the text is not JSON.
pub fn changed_member_addresses(baseline: &str) -> (r: Option<Vec<String>>)
    ensures
        r is None <==> !json_well_formed(baseline@),
        r is Some ==> r->0@.map_values(|s: String| s@) == json_strings_at(baseline@, changed_addresses_pointer()),
{
    if !json_parses(baseline) {
        return None;
    }
    Some(strings_at(baseline, "/steps/0/main_passes/0/changed_member_addresses"))
}

/// Whether `p` occurs in `t`.
pub open spec fn text_contains(t: Seq<char>, p: Seq<char>) -> bool {
    exists|i: int| occurs_at(t, p, i)
}

fn occurs_at_exec(t: &Vec<char>, p: &Vec<char>, i: usize) -> (r: bool)
    requires
        i <= t@.len(),
    ensures
        r == occurs_at(t@, p@, i as int),
{
    if p.len() > t.len() - i {
        return false;
    }
    let tl = t.len();
    let mut k: usize = 0;
    while k < p.len()
        invariant
            tl == t@.len(),
            i + p@.len() <= t@.len(),
            k <= p@.len(),
            forall|j: int| 0 <= j < k ==> t@[i + j] == p@[j],
        decreases p.len() - k,
    {
        assert(i + k < tl);
        if t[i + k] != p[k] {
            assert(t@.subrange(i as int, i + p@.len())[k as int] != p@[k as int]);
            return false;
        }
        k = k + 1;
    }
    assert(t@.subrange(i as int, i + p@.len()) =~= p@);
    true
}

/// Whether the text `p` occurs in the text `t`.
pub fn contains_text(t: &str, p: &str) -> (r: bool)
    ensures
        r == text_contains(t@, p@),
{
    let tc = chars_of(t);
    let pc = chars_of(p);
    let mut i: usize = 0;
    while i < tc.len()
        invariant
            tc@ == t@,
            pc@ == p@,
            i <= tc@.len(),
            forall|j: int| 0 <= j < i ==> !occurs_at(t@, p@, j),
        decreases tc.len() - i,
    {
        if occurs_at_exec(&tc, &pc, i) {
            return true;
        }
        i = i + 1;
    }
    if occurs_at_exec(&tc, &pc, i) {
        return true;
    }
    assert forall|j: int| !occurs_at(t@, p@, j) by {
        if 0 <= j <= i {
        }
    }
    false
}

/// The groups of graph variants the analysis report lists apart.
#[derive(Clone, Copy, Debug, PartialEq, Eq)]
pub enum AblationGroup {
    /// Variants that drop mismatching or unsupported members.
    Mismatch,
    /// Variants that drop dependency families or keep direct edges only.
    DependencyFamily,
    /// Variants that combine two removals.
    Cross,
}

/// Whether a variant named `name` belongs to a group: by the words
/// "mismatch" or "unsupported"; "without_" or "direct_exact"; or a '+'.
pub open spec fn in_group(name: Seq<char>, group: AblationGroup) -> bool {
    match group {
        AblationGroup::Mismatch => text_contains(name, "mismatch"@) || text_contains(name, "unsupported"@),
        AblationGroup::DependencyFamily => text_contains(name, "without_"@) || text_contains(name, "direct_exact"@),
        AblationGroup::Cross => text_contains(name, "+"@),
    }
}

/// Whether the variant named `name` belongs to `group` (see [`in_group`]).
pub fn in_ablation_group(name: &str, group: AblationGroup) -> (r: bool)
    ensures
        r == in_group(name@, group),
{
    match group {
        AblationGroup::Mismatch => contains_text(name, "mismatch") || contains_text(name, "unsupported"),
        AblationGroup::DependencyFamily => contains_text(name, "without_") || contains_text(name, "direct_exact"),
        AblationGroup::Cross => contains_text(name, "+"),
    }
}

} // verus!
