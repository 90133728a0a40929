//! Part-id resolution: which part each element of a class belongs to, and
//! the part's numeric id read from its name text.
use vstd::prelude::*;
use vstd::string::StringSliceAdditionalSpecFns;
use vstd::utf8::encode_utf8;

verus! {

/// `u8::is_ascii_whitespace`: space, tab, line feed, form feed, carriage return.
pub open spec fn is_space(b: u8) -> bool {
    b == 32u8 || b == 9u8 || b == 10u8 || b == 12u8 || b == 13u8
}

pub open spec fn is_digit(b: u8) -> bool {
    48u8 <= b <= 57u8
}

/// First index at or after `i` that is not whitespace.
pub open spec fn skip_spaces(s: Seq<u8>, i: int) -> int
    decreases s.len() - i,
{
    if 0 <= i < s.len() && is_space(s[i]) {
        skip_spaces(s, i + 1)
    } else {
        i
    }
}

/// End of the run of decimal digits that starts at `i`.
pub open spec fn digits_end(s: Seq<u8>, i: int) -> int
    decreases s.len() - i,
{
    if 0 <= i < s.len() && is_digit(s[i]) {
        digits_end(s, i + 1)
    } else {
        i
    }
}

/// Value of a run of digits, accumulated left to right and held at
/// `i32::MAX` once it would pass it.
pub open spec fn saturated_value(d: Seq<u8>) -> int
    decreases d.len(),
{
    if d.len() == 0 {
        0
    } else {
        let v = saturated_value(d.drop_last()) * 10 + (d.last() - 48);
        if v > i32::MAX {
            i32::MAX as int
        } else {
            v
        }
    }
}

/// The leading decimal integer of a text in the manner of C's `atoi`:
/// leading whitespace, an optional sign, then digits; anything after the
/// digits is ignored, no digit at all gives 0, and the magnitude stops at
/// `i32::MAX`.
pub open spec fn leading_int(s: Seq<u8>) -> int {
    let i = skip_spaces(s, 0);
    let neg = i < s.len() && s[i] == 45u8;
    let j = if i < s.len() && (s[i] == 45u8 || s[i] == 43u8) {
        i + 1
    } else {
        i
    };
    let e = digits_end(s, j);
    if e == j {
        0
    } else if neg {
        -saturated_value(s.subrange(j, e))
    } else {
        saturated_value(s.subrange(j, e))
    }
}

proof fn lemma_saturated_range(d: Seq<u8>)
    requires
        forall|k: int| 0 <= k < d.len() ==> is_digit(#[trigger] d[k]),
    ensures
        0 <= saturated_value(d) <= i32::MAX,
    decreases d.len(),
{
    if d.len() > 0 {
        lemma_saturated_range(d.drop_last());
    }
}

/// Parses the leading decimal integer of `text` (see `leading_int`).
pub fn atoi_prefix(text: &str) -> (r: i32)
    ensures
        r as int == leading_int(text.spec_bytes()),
{
    let bytes = text.as_bytes();
    let ghost s = bytes@;
    let mut idx: usize = 0;
    while idx < bytes.len() && (bytes[idx] == 32u8 || bytes[idx] == 9u8 || bytes[idx] == 10u8
        || bytes[idx] == 12u8 || bytes[idx] == 13u8)
        invariant
            s == bytes@,
            idx <= s.len(),
            skip_spaces(s, idx as int) == skip_spaces(s, 0),
        decreases s.len() - idx,
    {
        idx += 1;
    }
    let ghost i0 = idx as int;
    let mut sign: i32 = 1;
    if idx < bytes.len() {
        if bytes[idx] == 45u8 {
            sign = -1;
            idx += 1;
        } else if bytes[idx] == 43u8 {
            idx += 1;
        }
    }
    let ghost j = idx as int;
    let mut value: i32 = 0;
    let mut seen_digit = false;
    while idx < bytes.len() && 48u8 <= bytes[idx] && bytes[idx] <= 57u8
        invariant
            s == bytes@,
            0 <= j <= idx <= s.len(),
            forall|k: int| j <= k < idx ==> is_digit(#[trigger] s[k]),
            digits_end(s, idx as int) == digits_end(s, j),
            seen_digit <==> idx > j,
            value as int == saturated_value(s.subrange(j, idx as int)),
        decreases s.len() - idx,
    {
        proof {
            lemma_saturated_range(s.subrange(j, idx as int));
            assert(s.subrange(j, idx + 1).drop_last() =~= s.subrange(j, idx as int));
            assert(s.subrange(j, idx + 1).last() == s[idx as int]);
        }
        seen_digit = true;
        let d = (bytes[idx] - 48u8) as i32;
        value = if value > 214748364 || (value == 214748364 && d > 7) {
            i32::MAX
        } else {
            value * 10 + d
        };
        idx += 1;
    }
    proof {
        lemma_saturated_range(s.subrange(j, idx as int));
    }
    if seen_digit {
        if sign < 0 {
            -value
        } else {
            value
        }
    } else {
        0
    }
}

/// The part cursor after element `iel` has been looked at, given the cursor
/// `c` before: it moves past every boundary that `iel` has reached, so that
/// an empty part (two equal boundaries) is passed over.
pub open spec fn cursor_step(def_part: Seq<i32>, c: nat, iel: int) -> nat
    decreases def_part.len() - c,
{
    if c < def_part.len() && def_part[c as int] as int <= iel {
        cursor_step(def_part, c + 1, iel)
    } else {
        c
    }
}

/// The part cursor once the first `n` elements of a class have been walked
/// in order.
pub open spec fn part_cursor(def_part: Seq<i32>, n: nat) -> nat
    decreases n,
{
    if n == 0 {
        0
    } else {
        cursor_step(def_part, part_cursor(def_part, (n - 1) as nat), n - 1)
    }
}

/// The part an element belongs to once the cursor is `c`, that is once `c`
/// boundaries have been reached: the last of them, and part 0 before the
/// first.
pub open spec fn part_slot(c: nat) -> nat {
    if c == 0 {
        0
    } else {
        (c - 1) as nat
    }
}

/// The id of part `c`: its name read as a leading integer, or 0 past the
/// last name.
pub open spec fn part_id_at(names: Seq<Seq<char>>, c: nat) -> int {
    if c < names.len() {
        leading_int(encode_utf8(names[c as int]))
    } else {
        0
    }
}

pub open spec fn name_views(p_text: Seq<String>) -> Seq<Seq<char>> {
    p_text.map_values(|t: String| t@)
}

/// Resolves the part id of element `iel`, moving the cursor `part_index` on
/// when `iel` reaches the next boundary; the element belongs to the part of
/// the last boundary reached (part 0 before the first).
pub fn resolve_part_id(
    iel: usize,
    part_index: &mut usize,
    def_part: &[i32],
    p_text: &[String],
) -> (r: i32)
    ensures
        *final(part_index) as nat == cursor_step(def_part@, *old(part_index) as nat, iel as int),
        r as int == part_id_at(name_views(p_text@), part_slot(*final(part_index) as nat)),
{
    while *part_index < def_part.len() && (def_part[*part_index] < 0
        || def_part[*part_index] as usize <= iel)
        invariant
            cursor_step(def_part@, *part_index as nat, iel as int) == cursor_step(
                def_part@,
                *old(part_index) as nat,
                iel as int,
            ),
        decreases def_part@.len() - *part_index,
    {
        *part_index += 1;
    }
    let slot = if *part_index == 0 {
        0
    } else {
        *part_index - 1
    };
    if slot < p_text.len() {
        let t = p_text[slot].as_str();
        atoi_prefix(t)
    } else {
        0
    }
}

/// The part id of each of the `count` elements of a class, walking the
/// class's boundary table once in element order.
pub fn part_ids(count: usize, def_part: &[i32], p_text: &[String]) -> (r: Vec<i32>)
    ensures
        r@.len() == count,
        forall|i: int|
            0 <= i < count ==> #[trigger] r@[i] as int == part_id_at(
                name_views(p_text@),
                part_slot(part_cursor(def_part@, (i + 1) as nat)),
            ),
{
    let mut r: Vec<i32> = Vec::new();
    let mut cursor: usize = 0;
    let mut iel: usize = 0;
    while iel < count
        invariant
            iel <= count,
            r@.len() == iel,
            cursor as nat == part_cursor(def_part@, iel as nat),
            forall|i: int|
                0 <= i < iel ==> #[trigger] r@[i] as int == part_id_at(
                    name_views(p_text@),
                    part_slot(part_cursor(def_part@, (i + 1) as nat)),
                ),
        decreases count - iel,
    {
        let id = resolve_part_id(iel, &mut cursor, def_part, p_text);
        r.push(id);
        iel += 1;
    }
    r
}

} // verus!
