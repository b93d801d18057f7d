//! Character-level helpers shared by the address and report code:
//! column letters, decimal numerals, ASCII case folding and the
//! lexicographic order on text.
use vstd::prelude::*;

verus! {

/// The bijective base-26 column label of `col` ("A" for 1, "Z" for 26, "AA" for 27);
/// empty for 0.
pub open spec fn column_letters_spec(col: nat) -> Seq<char>
    decreases col,
{
    if col == 0 {
        Seq::empty()
    } else {
        let rem = ((col - 1) as nat) % 26;
        column_letters_spec((((col - 1) as nat) / 26) as nat).push(letter_for(rem))
    }
}

/// The upper-case letter with offset `rem` from 'A'.
pub open spec fn letter_for(rem: nat) -> char {
    ((65 + rem) as u8) as char
}

/// The decimal numeral of `n`, without leading zeros ("0" for zero).
pub open spec fn decimal_spec(n: nat) -> Seq<char>
    decreases n,
{
    if n < 10 {
        seq![digit_for(n)]
    } else {
        decimal_spec(n / 10).push(digit_for(n % 10))
    }
}

/// The decimal digit character for `d`.
pub open spec fn digit_for(d: nat) -> char {
    ((48 + d) as u8) as char
}

/// ASCII upper-casing of one character; other characters are unchanged.
pub open spec fn ascii_upper_char(c: char) -> char {
    if 'a' <= c && c <= 'z' {
        (((c as u32) - 32) as u8) as char
    } else {
        c
    }
}

/// ASCII upper-casing of a whole text.
pub open spec fn ascii_upper(s: Seq<char>) -> Seq<char> {
    s.map_values(|c: char| ascii_upper_char(c))
}

/// Strict lexicographic order on texts, by character code (the order of UTF-8 bytes).
pub open spec fn text_lt(a: Seq<char>, b: Seq<char>) -> bool
    decreases a.len(),
{
    if a.len() == 0 {
        b.len() > 0
    } else if b.len() == 0 {
        false
    } else if a[0] != b[0] {
        (a[0] as u32) < (b[0] as u32)
    } else {
        text_lt(a.drop_first(), b.drop_first())
    }
}

/// No text sorts before itself.
pub proof fn lemma_text_lt_irrefl(a: Seq<char>)
    ensures
        !text_lt(a, a),
    decreases a.len(),
{
    if a.len() > 0 {
        lemma_text_lt_irrefl(a.drop_first());
    }
}

/// The text order is transitive.
pub proof fn lemma_text_lt_trans(a: Seq<char>, b: Seq<char>, c: Seq<char>)
    requires
        text_lt(a, b),
        text_lt(b, c),
    ensures
        text_lt(a, c),
    decreases a.len(),
{
    if a.len() > 0 && b.len() > 0 && c.len() > 0 && a[0] == b[0] && b[0] == c[0] {
        lemma_text_lt_trans(a.drop_first(), b.drop_first(), c.drop_first());
    }
}

/// Of two different texts, one sorts before the other.
pub proof fn lemma_text_lt_total(a: Seq<char>, b: Seq<char>)
    ensures
        a == b || text_lt(a, b) || text_lt(b, a),
    decreases a.len(),
{
    if a.len() > 0 && b.len() > 0 && a[0] == b[0] {
        lemma_text_lt_total(a.drop_first(), b.drop_first());
        if a.drop_first() == b.drop_first() {
            assert(a =~= seq![a[0]] + a.drop_first());
            assert(b =~= seq![b[0]] + b.drop_first());
        }
    } else if a.len() == 0 && b.len() == 0 {
        assert(a =~= b);
    } else if a.len() > 0 && b.len() > 0 {
        vstd::utf8::char_u32_cast(a[0], a[0] as u32);
        vstd::utf8::char_u32_cast(b[0], b[0] as u32);
    }
}

/// Two texts never sort before each other.
pub proof fn lemma_text_lt_asym(a: Seq<char>, b: Seq<char>)
    requires
        text_lt(a, b),
    ensures
        !text_lt(b, a),
{
    if text_lt(b, a) {
        lemma_text_lt_trans(a, b, a);
        lemma_text_lt_irrefl(a);
    }
}

/// Appends one character to a `String` (std's `String::push`).
#[verifier::external_body]
pub(crate) fn push_char(s: &mut String, c: char)
    ensures
        final(s)@ == old(s)@.push(c),
{
    s.push(c);
}

/// Appends a text to a `String`.
pub(crate) fn push_str(s: &mut String, t: &str)
    ensures
        final(s)@ == old(s)@ + t@,
{
    let cs = chars_of(t);
    push_chars(s, &cs);
}

/// A `String` holding a copy of `t`.
pub(crate) fn string_of(t: &str) -> (r: String)
    ensures
        r@ == t@,
{
    let mut s = String::new();
    push_str(&mut s, t);
    s
}

/// Appends the characters of `v` in order.
pub(crate) fn push_chars(s: &mut String, v: &Vec<char>)
    ensures
        final(s)@ == old(s)@ + v@,
{
    let ghost start = s@;
    let mut i: usize = 0;
    while i < v.len()
        invariant
            i <= v.len(),
            s@ == start + v@.subrange(0, i as int),
        decreases v.len() - i,
    {
        push_char(s, v[i]);
        assert(v@.subrange(0, (i + 1) as int) == v@.subrange(0, i as int).push(v@[i as int]));
        i = i + 1;
    }
    assert(v@.subrange(0, v.len() as int) == v@);
}

/// Appends the column label of `col` (nothing for 0).
pub(crate) fn push_column_letters(s: &mut String, col: u32)
    ensures
        final(s)@ == old(s)@ + column_letters_spec(col as nat),
{
    let mut reversed: Vec<char> = Vec::new();
    let mut column = col;
    while column > 0
        invariant
            column_letters_spec(col as nat) == column_letters_spec(column as nat)
                + reversed@.reverse(),
        decreases column,
    {
        let rem = (column - 1) % 26;
        let c = ((65 + rem) as u8) as char;
        let ghost prev = reversed@;
        reversed.push(c);
        assert(reversed@.reverse() == seq![c] + prev.reverse()) by {
            assert(reversed@.reverse() =~= seq![c] + prev.reverse());
        }
        let next = (column - 1) / 26;
        assert(column_letters_spec(column as nat) == column_letters_spec(next as nat).push(c));
        assert(column_letters_spec(next as nat).push(c) + prev.reverse()
            =~= column_letters_spec(next as nat) + (seq![c] + prev.reverse()));
        column = next;
    }
    assert(column_letters_spec(0) =~= Seq::<char>::empty());
    assert(column_letters_spec(col as nat) =~= reversed@.reverse());
    let ghost start = s@;
    let mut i = reversed.len();
    while i > 0
        invariant
            i <= reversed.len(),
            s@ == start + reversed@.reverse().subrange(0, (reversed.len() - i) as int),
        decreases i,
    {
        i = i - 1;
        let c = reversed[i];
        let ghost k = (reversed.len() - i - 1) as int;
        push_char(s, c);
        assert(reversed@.reverse().subrange(0, k + 1) =~= reversed@.reverse().subrange(0, k).push(
            c,
        ));
    }
    assert(reversed@.reverse().subrange(0, reversed.len() as int) =~= reversed@.reverse());
}

/// Appends the decimal numeral of `n`.
pub(crate) fn push_decimal(s: &mut String, n: u64)
    ensures
        final(s)@ == old(s)@ + decimal_spec(n as nat),
{
    let mut reversed: Vec<char> = Vec::new();
    let mut m = n;
    let d0 = m % 10;
    reversed.push(((48 + d0) as u8) as char);
    m = m / 10;
    assert(decimal_spec(n as nat) == (if m == 0 {
        Seq::<char>::empty()
    } else {
        decimal_spec(m as nat)
    }) + reversed@.reverse()) by {
        assert(reversed@.reverse() =~= seq![digit_for(d0 as nat)]);
        if m == 0 {
            assert(seq![digit_for(d0 as nat)] =~= Seq::<char>::empty() + seq![digit_for(d0 as nat)]);
        } else {
            assert(decimal_spec(m as nat).push(digit_for(d0 as nat)) =~= decimal_spec(m as nat)
                + seq![digit_for(d0 as nat)]);
        }
    }
    while m > 0
        invariant
            decimal_spec(n as nat) == decimal_spec(m as nat) + reversed@.reverse() || m == 0,
            m == 0 ==> decimal_spec(n as nat) == reversed@.reverse(),
        decreases m,
    {
        let d = m % 10;
        let c = ((48 + d) as u8) as char;
        let ghost prev = reversed@;
        reversed.push(c);
        assert(reversed@.reverse() =~= seq![c] + prev.reverse());
        let next = m / 10;
        if next == 0 {
            assert(decimal_spec(m as nat) == seq![digit_for(m as nat)]);
            assert(decimal_spec(n as nat) =~= reversed@.reverse());
        } else {
            assert(decimal_spec(m as nat) == decimal_spec(next as nat).push(c));
            assert(decimal_spec(next as nat).push(c) + prev.reverse() =~= decimal_spec(next as nat)
                + (seq![c] + prev.reverse()));
        }
        m = next;
    }
    let ghost start = s@;
    let mut i = reversed.len();
    while i > 0
        invariant
            i <= reversed.len(),
            s@ == start + reversed@.reverse().subrange(0, (reversed.len() - i) as int),
        decreases i,
    {
        i = i - 1;
        let c = reversed[i];
        let ghost k = (reversed.len() - i - 1) as int;
        push_char(s, c);
        assert(reversed@.reverse().subrange(0, k + 1) =~= reversed@.reverse().subrange(0, k).push(
            c,
        ));
    }
    assert(reversed@.reverse().subrange(0, reversed.len() as int) =~= reversed@.reverse());
}

/// ASCII upper-case of one character.
pub fn to_ascii_upper_char(c: char) -> (r: char)
    ensures
        r == ascii_upper_char(c),
{
    if 'a' <= c && c <= 'z' {
        (((c as u32) - 32) as u8) as char
    } else {
        c
    }
}

/// ASCII upper-case copy of a text.
pub fn to_ascii_upper(t: &str) -> (r: String)
    ensures
        r@ == ascii_upper(t@),
{
    let n = t.unicode_len();
    let mut s = String::new();
    let mut i: usize = 0;
    while i < n
        invariant
            n == t@.len(),
            i <= n,
            s@ == ascii_upper(t@.subrange(0, i as int)),
        decreases n - i,
    {
        let c = t.get_char(i);
        push_char(&mut s, to_ascii_upper_char(c));
        assert(ascii_upper(t@.subrange(0, (i + 1) as int)) =~= ascii_upper(
            t@.subrange(0, i as int),
        ).push(ascii_upper_char(c)));
        i = i + 1;
    }
    assert(t@.subrange(0, n as int) =~= t@);
    s
}

/// Whether `a` sorts strictly before `b`.
pub fn text_less(a: &str, b: &str) -> (r: bool)
    ensures
        r == text_lt(a@, b@),
{
    let n = a.unicode_len();
    let m = b.unicode_len();
    let mut i: usize = 0;
    assert(a@.skip(0) =~= a@);
    assert(b@.skip(0) =~= b@);
    while i < n && i < m
        invariant
            n == a@.len(),
            m == b@.len(),
            i <= n,
            i <= m,
            a@.subrange(0, i as int) == b@.subrange(0, i as int),
            text_lt(a@, b@) == text_lt(a@.skip(i as int), b@.skip(i as int)),
        decreases n - i,
    {
        let x = a.get_char(i);
        let y = b.get_char(i);
        assert(a@.skip(i as int)[0] == x);
        assert(b@.skip(i as int)[0] == y);
        if x != y {
            return (x as u32) < (y as u32);
        }
        assert(a@.skip(i as int).drop_first() =~= a@.skip(i + 1));
        assert(b@.skip(i as int).drop_first() =~= b@.skip(i + 1));
        assert(a@.subrange(0, i + 1) =~= a@.subrange(0, i as int).push(x));
        assert(b@.subrange(0, i + 1) =~= b@.subrange(0, i as int).push(y));
        i = i + 1;
    }
    i < m && i == n
}

/// Text equality by content.
pub fn text_equal(a: &str, b: &str) -> (r: bool)
    ensures
        r == (a@ == b@),
{
    let n = a.unicode_len();
    let m = b.unicode_len();
    if n != m {
        return false;
    }
    let mut i: usize = 0;
    while i < n
        invariant
            n == a@.len(),
            m == b@.len(),
            n == m,
            i <= n,
            a@.subrange(0, i as int) == b@.subrange(0, i as int),
        decreases n - i,
    {
        let x = a.get_char(i);
        let y = b.get_char(i);
        if x != y {
            return false;
        }
        assert(a@.subrange(0, i + 1) =~= a@.subrange(0, i as int).push(x));
        assert(b@.subrange(0, i + 1) =~= b@.subrange(0, i as int).push(y));
        i = i + 1;
    }
    assert(a@ =~= a@.subrange(0, n as int));
    assert(b@ =~= b@.subrange(0, n as int));
    true
}

/// Whether `p` occurs in `t` starting at position `i`.
pub open spec fn occurs_at(t: Seq<char>, p: Seq<char>, i: int) -> bool {
    0 <= i && i + p.len() <= t.len() && t.subrange(i, i + p.len()) == p
}

/// The start of the `n`-th occurrence (counting from 1) of a nonempty `p` in
/// `t` at or after position `i`, counting occurrences from left to right
/// without overlap.
pub open spec fn nth_occurrence(t: Seq<char>, p: Seq<char>, i: int, n: nat) -> Option<int>
    decreases t.len() - i,
{
    if p.len() == 0 || n == 0 || i < 0 || i + p.len() > t.len() {
        None
    } else if occurs_at(t, p, i) {
        if n == 1 {
            Some(i)
        } else {
            nth_occurrence(t, p, i + p.len(), (n - 1) as nat)
        }
    } else {
        nth_occurrence(t, p, i + 1, n)
    }
}

/// `t` with its `instance`-th occurrence of `old` replaced by `new`; `t`
/// itself when `old` is empty, `instance` is 0, or there are fewer occurrences.
pub open spec fn substituted(t: Seq<char>, old: Seq<char>, new: Seq<char>, instance: nat) -> Seq<char> {
    if old.len() == 0 || instance == 0 {
        t
    } else {
        match nth_occurrence(t, old, 0, instance) {
            None => t,
            Some(i) => t.subrange(0, i) + new + t.subrange(i + old.len(), t.len() as int),
        }
    }
}

fn occurs_exec(t: &str, p: &str, i: usize) -> (r: bool)
    requires
        i + p@.len() <= t@.len(),
    ensures
        r == occurs_at(t@, p@, i as int),
{
    let n = t.unicode_len();
    let m = p.unicode_len();
    let mut j: usize = 0;
    while j < m
        invariant
            n == t@.len(),
            m == p@.len(),
            i + m <= t@.len(),
            j <= m,
            t@.subrange(i as int, i + j) == p@.subrange(0, j as int),
        decreases m - j,
    {
        if t.get_char(i + j) != p.get_char(j) {
            assert(t@.subrange(i as int, i + m)[j as int] != p@[j as int]);
            return false;
        }
        assert(t@.subrange(i as int, i + j + 1) =~= t@.subrange(i as int, i + j).push(t@[i + j]));
        assert(p@.subrange(0, j + 1) =~= p@.subrange(0, j as int).push(p@[j as int]));
        j = j + 1;
    }
    assert(p@.subrange(0, m as int) =~= p@);
    true
}

/// Appends the characters of `t` from `from` up to `to`.
fn push_slice(s: &mut String, t: &str, from: usize, to: usize)
    requires
        from <= to <= t@.len(),
    ensures
        final(s)@ == old(s)@ + t@.subrange(from as int, to as int),
{
    let ghost start = s@;
    let mut i = from;
    while i < to
        invariant
            from <= i <= to,
            to <= t@.len(),
            s@ == start + t@.subrange(from as int, i as int),
        decreases to - i,
    {
        push_char(s, t.get_char(i));
        assert(t@.subrange(from as int, i + 1) =~= t@.subrange(from as int, i as int).push(t@[i as int]));
        i = i + 1;
    }
}

/// `text` with its `instance`-th occurrence of `old_text` replaced by `new_text`.
pub fn substitute_instance(text: &str, old_text: &str, new_text: &str, instance: usize) -> (r: String)
    ensures
        r@ == substituted(text@, old_text@, new_text@, instance as nat),
{
    let n = text.unicode_len();
    let m = old_text.unicode_len();
    if m == 0 || instance == 0 || m > n {
        return string_of(text);
    }
    let ghost t = text@;
    let ghost p = old_text@;
    let mut i: usize = 0;
    let mut remaining = instance;
    while i <= n - m
        invariant
            n == t.len(),
            m == p.len(),
            m > 0,
            m <= n,
            t == text@,
            p == old_text@,
            remaining >= 1,
            i <= n,
            nth_occurrence(t, p, 0, instance as nat) == nth_occurrence(t, p, i as int, remaining as nat),
        decreases n - i,
    {
        if occurs_exec(text, old_text, i) {
            if remaining == 1 {
                let mut out = String::new();
                push_slice(&mut out, text, 0, i);
                push_str(&mut out, new_text);
                push_slice(&mut out, text, i + m, n);
                return out;
            }
            remaining = remaining - 1;
            i = i + m;
        } else {
            i = i + 1;
        }
    }
    string_of(text)
}

/// The characters of a text, in order.
pub fn chars_of(text: &str) -> (r: Vec<char>)
    ensures
        r@ == text@,
{
    broadcast use vstd::string::axiom_spec_iter;
    let mut out: Vec<char> = Vec::new();
    for c in it: text.chars()
        invariant
            it.seq() == text@,
            out@ == it.seq().subrange(0, it.index() as int),
    {
        out.push(c);
    }
    out
}

} // verus!
