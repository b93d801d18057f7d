//! Reading values out of JSON text: whether it parses, and the whole
//! number, text or array length found at a JSON pointer (RFC 6901, such as
//! `/baseline/static_graph/edge_count` or `/phases/0/label`).
use vstd::prelude::*;
use crate::text::{decimal_spec, push_decimal, push_str, string_of, text_equal};

verus! {

/// Whether `text` is one well-formed JSON value.
pub uninterp spec fn json_well_formed(text: Seq<char>) -> bool;

/// The non-negative whole number at `pointer` in the JSON value `text`;
/// none when the text does not parse, nothing is there, or what is there is
/// not such a number.
pub uninterp spec fn json_u64_at(text: Seq<char>, pointer: Seq<char>) -> Option<u64>;

/// The string at `pointer` in the JSON value `text`; none when the text does
/// not parse, nothing is there, or what is there is not a string.
pub uninterp spec fn json_str_at(text: Seq<char>, pointer: Seq<char>) -> Option<Seq<char>>;

/// The length of the array at `pointer` in the JSON value `text`; none when
/// the text does not parse, nothing is there, or what is there is not an
/// array.
pub uninterp spec fn json_array_len(text: Seq<char>, pointer: Seq<char>) -> Option<usize>;

/// Whether serde_json's `from_str` parses `text` into a `Value`.
#[verifier::external_body]
pub(crate) fn json_parses(text: &str) -> (r: bool)
    ensures
        r == json_well_formed(text@),
{
    serde_json::from_str::<serde_json::Value>(text).is_ok()
}

/// serde_json's `from_str` into a `Value`, then `Value::pointer` and
/// `Value::as_u64`: the result is [`json_u64_at`] of the text and pointer.
#[verifier::external_body]
pub(crate) fn json_u64_at_pointer(text: &str, pointer: &str) -> (r: Option<u64>)
    ensures
        r == json_u64_at(text@, pointer@),
{
    match serde_json::from_str::<serde_json::Value>(text) {
        Ok(value) => match value.pointer(pointer) {
            Some(found) => found.as_u64(),
            None => None,
        },
        Err(_) => None,
    }
}

/// serde_json's `from_str` into a `Value`, then `Value::pointer` and
/// `Value::as_str`: the result is [`json_str_at`] of the text and pointer.
#[verifier::external_body]
pub(crate) fn json_str_at_pointer(text: &str, pointer: &str) -> (r: Option<String>)
    ensures
        match r {
            Some(s) => json_str_at(text@, pointer@) == Some(s@),
            None => json_str_at(text@, pointer@) == None::<Seq<char>>,
        },
{
    match serde_json::from_str::<serde_json::Value>(text) {
        Ok(value) => match value.pointer(pointer) {
            Some(found) => match found.as_str() {
                Some(s) => Some(s.to_string()),
                None => None,
            },
            None => None,
        },
        Err(_) => None,
    }
}

/// serde_json's `from_str` into a `Value`, then `Value::pointer` and
/// `Value::as_array` with the array's length: the result is
/// [`json_array_len`] of the text and pointer.
#[verifier::external_body]
pub(crate) fn json_array_len_at(text: &str, pointer: &str) -> (r: Option<usize>)
    ensures
        r == json_array_len(text@, pointer@),
{
    match serde_json::from_str::<serde_json::Value>(text) {
        Ok(value) => match value.pointer(pointer) {
            Some(found) => match found.as_array() {
                Some(items) => Some(items.len()),
                None => None,
            },
            None => None,
        },
        Err(_) => None,
    }
}

/// The pointer to item `i` of the array at `base`.
pub open spec fn item_pointer(base: Seq<char>, i: nat) -> Seq<char> {
    base + seq!['/'] + decimal_spec(i)
}

pub(crate) fn item_pointer_exec(base: &str, i: usize) -> (r: String)
    ensures
        r@ == item_pointer(base@, i as nat),
{
    let mut p = string_of(base);
    push_str(&mut p, "/");
    push_decimal(&mut p, i as u64);
    proof {
        reveal_strlit("/");
    }
    assert(p@ =~= item_pointer(base@, i as nat));
    p
}

/// The strings among the first `n` items of the array at `base`, in order.
pub open spec fn string_items(text: Seq<char>, base: Seq<char>, n: nat) -> Seq<Seq<char>>
    decreases n,
{
    if n == 0 {
        Seq::empty()
    } else {
        let p = string_items(text, base, (n - 1) as nat);
        match json_str_at(text, item_pointer(base, (n - 1) as nat)) {
            Some(s) => p.push(s),
            None => p,
        }
    }
}

/// The strings in the array at `base`, in order, skipping what is not a
/// string; none when there is no array there.
pub open spec fn json_strings_at(text: Seq<char>, base: Seq<char>) -> Seq<Seq<char>> {
    match json_array_len(text, base) {
        Some(n) => string_items(text, base, n as nat),
        None => Seq::empty(),
    }
}

/// The strings in the array at `base` of the JSON text (see
/// [`json_strings_at`]).
pub fn strings_at(text: &str, base: &str) -> (r: Vec<String>)
    ensures
        r@.map_values(|s: String| s@) == json_strings_at(text@, base@),
{
    let mut out: Vec<String> = Vec::new();
    let n = match json_array_len_at(text, base) {
        Some(n) => n,
        None => 0,
    };
    let mut i: usize = 0;
    while i < n
        invariant
            i <= n,
            json_array_len(text@, base@) is Some ==> n == json_array_len(text@, base@)->0,
            json_array_len(text@, base@) is None ==> n == 0,
            out@.map_values(|s: String| s@) == string_items(text@, base@, i as nat),
        decreases n - i,
    {
        let p = item_pointer_exec(base, i);
        let ghost before = out@;
        match json_str_at_pointer(text, p.as_str()) {
            Some(s) => {
                out.push(s);
                assert(out@.map_values(|s: String| s@) =~= before.map_values(|s: String| s@).push(s@));
            },
            None => {},
        }
        i = i + 1;
    }
    assert(out@.map_values(|s: String| s@) =~= json_strings_at(text@, base@));
    out
}

/// The position of the first item of the array at `phases`, from item `i`
/// of `n` on, whose `label` is the string `label`.
pub open spec fn labelled_position(text: Seq<char>, phases: Seq<char>, label: Seq<char>, i: nat, n: nat) -> Option<nat>
    decreases n - i,
{
    if i >= n {
        None
    } else if json_str_at(text, item_pointer(phases, i) + "/label"@) == Some(label) {
        Some(i)
    } else {
        labelled_position(text, phases, label, i + 1, n)
    }
}

/// The whole number at `field` within the first item of the array at
/// `phases` labelled `label`; none when there is no such item or number.
pub open spec fn labelled_u64(text: Seq<char>, phases: Seq<char>, label: Seq<char>, field: Seq<char>) -> Option<u64> {
    match json_array_len(text, phases) {
        Some(n) => match labelled_position(text, phases, label, 0, n as nat) {
            Some(i) => json_u64_at(text, item_pointer(phases, i) + field),
            None => None,
        },
        None => None,
    }
}

/// The whole number at `field` within the first item labelled `label` of
/// the array at `phases` (see [`labelled_u64`]).
pub fn labelled_u64_at(text: &str, phases: &str, label: &str, field: &str) -> (r: Option<u64>)
    ensures
        r == labelled_u64(text@, phases@, label@, field@),
{
    let n = match json_array_len_at(text, phases) {
        Some(n) => n,
        None => {
            return None;
        },
    };
    let mut i: usize = 0;
    while i < n
        invariant
            i <= n,
            json_array_len(text@, phases@) == Some(n),
            labelled_position(text@, phases@, label@, 0, n as nat) == labelled_position(
                text@,
                phases@,
                label@,
                i as nat,
                n as nat,
            ),
        decreases n - i,
    {
        let mut p = item_pointer_exec(phases, i);
        push_str(&mut p, "/label");
        let found = match json_str_at_pointer(text, p.as_str()) {
            Some(s) => text_equal(s.as_str(), label),
            None => false,
        };
        if found {
            let mut q = item_pointer_exec(phases, i);
            push_str(&mut q, field);
            return json_u64_at_pointer(text, q.as_str());
        }
        i = i + 1;
    }
    None
}

} // verus!
