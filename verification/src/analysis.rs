//! Editor analysis helpers over rendered type strings: reading a named
//! field's type out of a rendered `struct<...>` type.
//!
//! A rendered struct type reads `struct<.succ Int -> Int, .add Int -> Int -> Int>`:
//! named fields are `.name type`, separated by top-level commas; the `>` of an
//! arrow `->` is never a bracket.

use vstd::prelude::*;

use crate::lex::chars_of;

verus! {

// ---------------------------------------------------------------------------
// Brackets

/// Whether position `i` holds a `>` that closes a bracket (not the `>` of
/// an arrow `->`).
pub open spec fn is_closing_angle(s: Seq<char>, i: int) -> bool {
    s[i] == '>' && !(i > 0 && s[i - 1] == '-')
}

/// The end of the text that closes a depth-`depth` `<` opened before `i`:
/// the index of the closing `>`, if any.
pub open spec fn close_from(s: Seq<char>, i: int, depth: int) -> Option<int>
    decreases s.len() - i,
{
    if i < 0 || i >= s.len() {
        None
    } else if s[i] == '<' {
        close_from(s, i + 1, depth + 1)
    } else if is_closing_angle(s, i) {
        if depth - 1 == 0 {
            Some(i)
        } else {
            close_from(s, i + 1, depth - 1)
        }
    } else {
        close_from(s, i + 1, depth)
    }
}

proof fn lemma_close_from(s: Seq<char>, i: int, depth: int)
    requires
        0 <= i,
    ensures
        close_from(s, i, depth) matches Some(k) ==> i <= k < s.len(),
    decreases s.len() - i,
{
    if 0 <= i < s.len() {
        if s[i] == '<' {
            lemma_close_from(s, i + 1, depth + 1);
        } else if is_closing_angle(s, i) {
            if depth - 1 != 0 {
                lemma_close_from(s, i + 1, depth - 1);
            }
        } else {
            lemma_close_from(s, i + 1, depth);
        }
    }
}

/// The substring up to the `>` that closes a depth-1 `struct<...>` opening that
/// was already stripped.  The `>` of an arrow `->` is not a close.
pub fn match_close(inner: &str) -> (r: Option<&str>)
    requires
        inner@.len() < usize::MAX,
    ensures
        match close_from(inner@, 0, 1) {
            Some(k) => r matches Some(t) && t@ == inner@.take(k),
            None => r is None,
        },
{
    let cs = chars_of(inner);
    let mut depth: usize = 1;
    let mut i: usize = 0;
    while i < cs.len()
        invariant
            cs@ == inner@,
            inner@.len() < usize::MAX,
            i <= cs@.len(),
            1 <= depth <= i + 1,
            close_from(inner@, i as int, depth as int) == close_from(inner@, 0, 1),
        decreases cs@.len() - i,
    {
        let c = cs[i];
        if c == '<' {
            depth += 1;
        } else if c == '>' && !(i > 0 && cs[i - 1] == '-') {
            depth -= 1;
            if depth == 0 {
                return Some(inner.substring_char(0, i));
            }
        }
        i += 1;
    }
    None
}

// ---------------------------------------------------------------------------
// Top-level splitting

/// How a character moves the bracket depth over `()[]<>` (the `>` of `->`
/// excepted).
pub open spec fn depth_change(s: Seq<char>, i: int) -> int {
    if s[i] == '(' || s[i] == '[' || s[i] == '<' {
        1
    } else if s[i] == ')' || s[i] == ']' || is_closing_angle(s, i) {
        -1
    } else {
        0
    }
}

/// The segments of `s` from `i` on, split at each `sep` at depth 0; the
/// current segment began at `start`.
pub open spec fn split_from(s: Seq<char>, sep: char, i: int, depth: int, start: int) -> Seq<
    Seq<char>,
>
    decreases s.len() - i,
{
    if i < 0 || i >= s.len() {
        seq![s.subrange(start, s.len() as int)]
    } else if depth_change(s, i) != 0 {
        split_from(s, sep, i + 1, depth + depth_change(s, i), start)
    } else if s[i] == sep && depth == 0 {
        seq![s.subrange(start, i)] + split_from(s, sep, i + 1, depth, i + 1)
    } else {
        split_from(s, sep, i + 1, depth, start)
    }
}

/// The segments of `s` between the `sep`s at bracket depth 0.
pub open spec fn split_top(s: Seq<char>, sep: char) -> Seq<Seq<char>> {
    split_from(s, sep, 0, 0, 0)
}

/// Split `s` on `sep` at bracket depth 0 (over `()[]<>`, with the `>` of `->`
/// ignored), returning the segments.
pub fn split_top_level(s: &str, sep: char) -> (r: Vec<&str>)
    requires
        (sep as u32) < 0x80,
        s@.len() < i64::MAX,
    ensures
        r@.map_values(|t: &str| t@) == split_top(s@, sep),
{
    let cs = chars_of(s);
    let mut out: Vec<&str> = Vec::new();
    let mut depth: i64 = 0;
    let mut start: usize = 0;
    let mut i: usize = 0;
    while i < cs.len()
        invariant
            cs@ == s@,
            s@.len() < i64::MAX,
            start <= i <= cs@.len(),
            -(i as int) <= depth <= i,
            out@.map_values(|t: &str| t@) + split_from(s@, sep, i as int, depth as int, start as int)
                == split_top(s@, sep),
        decreases cs@.len() - i,
    {
        let c = cs[i];
        if c == '(' || c == '[' || c == '<' {
            depth += 1;
        } else if c == ')' || c == ']' || (c == '>' && !(i > 0 && cs[i - 1] == '-')) {
            depth -= 1;
        } else if c == sep && depth == 0 {
            let ghost before = out@;
            out.push(s.substring_char(start, i));
            proof {
                assert(out@.map_values(|t: &str| t@) =~= before.map_values(|t: &str| t@) + seq![
                    s@.subrange(start as int, i as int),
                ]);
                assert(out@.map_values(|t: &str| t@) + split_from(
                    s@,
                    sep,
                    i + 1,
                    depth as int,
                    i + 1,
                ) =~= before.map_values(|t: &str| t@) + split_from(
                    s@,
                    sep,
                    i as int,
                    depth as int,
                    start as int,
                ));
            }
            start = i + 1;
        }
        i += 1;
    }
    let ghost before = out@;
    out.push(s.substring_char(start, cs.len()));
    proof {
        assert(out@.map_values(|t: &str| t@) =~= before.map_values(|t: &str| t@) + split_from(
            s@,
            sep,
            i as int,
            depth as int,
            start as int,
        ));
    }
    out
}

/// Segments joined back together with `sep` between each two.
pub open spec fn join_with(segs: Seq<Seq<char>>, sep: char) -> Seq<char>
    decreases segs.len(),
{
    if segs.len() == 0 {
        Seq::empty()
    } else if segs.len() == 1 {
        segs[0]
    } else {
        segs[0] + seq![sep] + join_with(segs.drop_first(), sep)
    }
}

/// The segments from any point on rejoin to the text from their start.
proof fn lemma_split_from_rejoins(s: Seq<char>, sep: char, i: int, depth: int, start: int)
    requires
        0 <= start <= i <= s.len(),
    ensures
        split_from(s, sep, i, depth, start).len() >= 1,
        join_with(split_from(s, sep, i, depth, start), sep) == s.subrange(start, s.len() as int),
    decreases s.len() - i,
{
    if i < s.len() {
        if depth_change(s, i) != 0 {
            lemma_split_from_rejoins(s, sep, i + 1, depth + depth_change(s, i), start);
        } else if s[i] == sep && depth == 0 {
            lemma_split_from_rejoins(s, sep, i + 1, depth, i + 1);
            let rest = split_from(s, sep, i + 1, depth, i + 1);
            let segs = seq![s.subrange(start, i)] + rest;
            assert(segs.drop_first() =~= rest);
            assert(segs[0] == s.subrange(start, i));
            assert(s.subrange(start, s.len() as int) =~= s.subrange(start, i) + seq![sep]
                + s.subrange(i + 1, s.len() as int));
        } else {
            lemma_split_from_rejoins(s, sep, i + 1, depth, start);
        }
    }
}

/// Splitting loses nothing: the top-level segments of `s`, joined back with
/// the separator, are `s`.
pub proof fn law_split_rejoins(s: Seq<char>, sep: char)
    ensures
        join_with(split_top(s, sep), sep) == s,
{
    lemma_split_from_rejoins(s, sep, 0, 0, 0);
    assert(s.subrange(0, s.len() as int) =~= s);
}

/// The bracket depth before position `i` of `s`.
pub open spec fn depth_at(s: Seq<char>, i: int) -> int
    decreases i,
{
    if i <= 0 {
        0
    } else {
        depth_at(s, i - 1) + depth_change(s, i - 1)
    }
}

/// How many of the first `i` characters of `s` are a `sep` at bracket
/// depth 0.
pub open spec fn top_seps(s: Seq<char>, sep: char, i: int) -> nat
    decreases i,
{
    if i <= 0 {
        0
    } else {
        top_seps(s, sep, i - 1) + if s[i - 1] == sep && depth_change(s, i - 1) == 0 && depth_at(
            s,
            i - 1,
        ) == 0 {
            1nat
        } else {
            0nat
        }
    }
}

proof fn lemma_split_from_count(s: Seq<char>, sep: char, i: int, start: int)
    requires
        0 <= i <= s.len(),
    ensures
        split_from(s, sep, i, depth_at(s, i), start).len() + top_seps(s, sep, i) == 1 + top_seps(
            s,
            sep,
            s.len() as int,
        ),
    decreases s.len() - i,
{
    if i < s.len() {
        lemma_split_from_count(s, sep, i + 1, start);
        lemma_split_from_count(s, sep, i + 1, i + 1);
    }
}

/// There is one segment more than there are separators at bracket depth 0.
pub proof fn law_split_count(s: Seq<char>, sep: char)
    ensures
        split_top(s, sep).len() == 1 + top_seps(s, sep, s.len() as int),
{
    lemma_split_from_count(s, sep, 0, 0);
}

// ---------------------------------------------------------------------------
// Whitespace

/// Unicode `White_Space`, as `char::is_whitespace` reads it.
pub open spec fn is_white(c: char) -> bool {
    let u = c as u32;
    (9 <= u <= 13) || u == 32 || u == 0x85 || u == 0xA0 || u == 0x1680 || (0x2000 <= u <= 0x200A)
        || u == 0x2028 || u == 0x2029 || u == 0x202F || u == 0x205F || u == 0x3000
}

fn is_white_char(c: char) -> (b: bool)
    ensures
        b == is_white(c),
{
    let u = c as u32;
    (9 <= u && u <= 13) || u == 32 || u == 0x85 || u == 0xA0 || u == 0x1680 || (0x2000 <= u && u
        <= 0x200A) || u == 0x2028 || u == 0x2029 || u == 0x202F || u == 0x205F || u == 0x3000
}

proof fn lemma_first_white(s: Seq<char>)
    ensures
        first_white(s) matches Some(k) ==> k < s.len(),
    decreases s.len(),
{
    if s.len() > 0 {
        lemma_first_white(s.drop_first());
    }
}

/// The number of leading whitespace characters.
pub open spec fn lead_white(s: Seq<char>) -> nat
    decreases s.len(),
{
    if s.len() > 0 && is_white(s[0]) {
        1 + lead_white(s.drop_first())
    } else {
        0
    }
}

/// The number of trailing whitespace characters.
pub open spec fn trail_white(s: Seq<char>) -> nat
    decreases s.len(),
{
    if s.len() > 0 && is_white(s.last()) {
        1 + trail_white(s.drop_last())
    } else {
        0
    }
}

/// `s` without its leading and trailing whitespace.
pub open spec fn trimmed(s: Seq<char>) -> Seq<char> {
    let t = s.skip(lead_white(s) as int);
    t.take(t.len() - trail_white(t))
}

/// The index of the first whitespace character, if any.
pub open spec fn first_white(s: Seq<char>) -> Option<nat>
    decreases s.len(),
{
    if s.len() == 0 {
        None
    } else if is_white(s[0]) {
        Some(0)
    } else {
        match first_white(s.drop_first()) {
            Some(k) => Some(k + 1),
            None => None,
        }
    }
}

proof fn lemma_lead_white(s: Seq<char>, k: int)
    requires
        0 <= k <= lead_white(s),
    ensures
        lead_white(s) <= s.len(),
        lead_white(s) == k + lead_white(s.skip(k)),
    decreases s.len(),
{
    if s.len() > 0 && is_white(s[0]) {
        if k > 0 {
            lemma_lead_white(s.drop_first(), k - 1);
            assert(s.drop_first().skip(k - 1) =~= s.skip(k));
        } else {
            lemma_lead_white(s.drop_first(), 0);
            assert(s.skip(0) =~= s);
        }
    } else {
        assert(s.skip(0) =~= s);
    }
}

proof fn lemma_trail_white(s: Seq<char>, k: int)
    requires
        0 <= k <= trail_white(s),
    ensures
        trail_white(s) <= s.len(),
        trail_white(s) == k + trail_white(s.take(s.len() - k)),
    decreases s.len(),
{
    if s.len() > 0 && is_white(s.last()) {
        if k > 0 {
            lemma_trail_white(s.drop_last(), k - 1);
            assert(s.drop_last().take(s.drop_last().len() - (k - 1)) =~= s.take(s.len() - k));
        } else {
            lemma_trail_white(s.drop_last(), 0);
            assert(s.take(s.len() as int) =~= s);
        }
    } else {
        assert(s.take(s.len() as int) =~= s);
    }
}

/// The character range of `cs[from..to]` left after trimming whitespace.
fn trim_range(cs: &Vec<char>, from: usize, to: usize) -> (r: (usize, usize))
    requires
        from <= to <= cs@.len(),
    ensures
        from <= r.0 <= r.1 <= to,
        cs@.subrange(r.0 as int, r.1 as int) == trimmed(cs@.subrange(from as int, to as int)),
{
    let ghost s = cs@.subrange(from as int, to as int);
    let mut a = from;
    assert(s.skip(0) =~= s);
    while a < to && is_white_char(cs[a])
        invariant
            from <= a <= to <= cs@.len(),
            s == cs@.subrange(from as int, to as int),
            forall|j: int| from <= j < a ==> is_white(#[trigger] cs@[j]),
            lead_white(s) == (a - from) + lead_white(s.skip(a - from)),
        decreases to - a,
    {
        proof {
            let rest = s.skip(a - from);
            assert(rest.drop_first() =~= s.skip(a - from + 1));
        }
        a += 1;
    }
    proof {
        let rest = s.skip(a - from);
        assert(lead_white(rest) == 0);
        assert(rest =~= cs@.subrange(a as int, to as int));
    }
    let ghost t = cs@.subrange(a as int, to as int);
    let mut b = to;
    assert(t.take(to - a) =~= t);
    while b > a && is_white_char(cs[b - 1])
        invariant
            from <= a <= b <= to <= cs@.len(),
            t == cs@.subrange(a as int, to as int),
            trail_white(t) == (to - b) + trail_white(t.take(b - a)),
        decreases b - a,
    {
        proof {
            let rest = t.take(b - a);
            assert(rest.drop_last() =~= t.take(b - a - 1));
        }
        b -= 1;
    }
    proof {
        let rest = t.take(b - a);
        assert(trail_white(rest) == 0);
        assert(s.skip(lead_white(s) as int) =~= t);
        assert(t.take(t.len() - trail_white(t)) =~= cs@.subrange(a as int, b as int));
    }
    (a, b)
}

// ---------------------------------------------------------------------------
// Named fields

/// The type of the named field `field` among `segs`: the first segment that
/// reads `.field type` (after trimming) gives its trimmed `type`.
pub open spec fn find_field(segs: Seq<Seq<char>>, field: Seq<char>) -> Option<Seq<char>>
    decreases segs.len(),
{
    if segs.len() == 0 {
        None
    } else {
        let seg = trimmed(segs[0]);
        if seg.len() > 0 && seg[0] == '.' {
            let rest = seg.drop_first();
            match first_white(rest) {
                Some(k) => if rest.take(k as int) == field {
                    Some(trimmed(rest.skip(k as int)))
                } else {
                    find_field(segs.drop_first(), field)
                },
                None => find_field(segs.drop_first(), field),
            }
        } else {
            find_field(segs.drop_first(), field)
        }
    }
}

/// Whether segment `seg` (trimmed) declares the field `field`: it reads
/// `.` then a name of `k` non-blank characters, then a blank, and that name
/// is `field` exactly.
pub open spec fn declares_field(seg: Seq<char>, field: Seq<char>, k: int) -> bool {
    &&& 0 <= k
    &&& seg.len() > 1 + k
    &&& seg[0] == '.'
    &&& is_white(seg[1 + k])
    &&& forall|j: int| 0 <= j < k ==> !is_white(#[trigger] seg[1 + j])
    &&& seg.subrange(1, 1 + k) == field
}

/// The first blank of a text is where `first_white` says: a blank with none
/// before it.
proof fn lemma_first_white_is(s: Seq<char>, k: int)
    requires
        0 <= k < s.len(),
        is_white(s[k]),
        forall|j: int| 0 <= j < k ==> !is_white(#[trigger] s[j]),
    ensures
        first_white(s) == Some(k as nat),
    decreases k,
{
    if k > 0 {
        assert forall|j: int| 0 <= j < k - 1 implies !is_white(#[trigger] s.drop_first()[j]) by {
            assert(s.drop_first()[j] == s[j + 1]);
        }
        lemma_first_white_is(s.drop_first(), k - 1);
    }
}

/// And the other way round.
proof fn lemma_first_white_found(s: Seq<char>)
    ensures
        first_white(s) matches Some(k) ==> k < s.len() && is_white(s[k as int]) && forall|j: int|
            0 <= j < k ==> !is_white(#[trigger] s[j]),
    decreases s.len(),
{
    if s.len() > 0 {
        lemma_first_white_found(s.drop_first());
        if let Some(k) = first_white(s) {
            if k > 0 {
                assert forall|j: int| 0 <= j < k implies !is_white(#[trigger] s[j]) by {
                    if j > 0 {
                        assert(s[j] == s.drop_first()[j - 1]);
                    }
                }
            }
        }
    }
}

/// A field's type is read only off a segment whose field name is the one
/// asked for, whole: a found type is the text after `.field` in some
/// segment that declares exactly that field (so `.xs` never answers for
/// `x`), and when some segment declares the field a type is found.
pub proof fn law_field_named_exactly(segs: Seq<Seq<char>>, field: Seq<char>)
    ensures
        find_field(segs, field) matches Some(t) ==> exists|i: int, k: int|
            0 <= i < segs.len() && declares_field(trimmed(segs[i]), field, k) && t == trimmed(
                trimmed(segs[i]).skip(1 + k),
            ),
        (exists|i: int, k: int| 0 <= i < segs.len() && declares_field(trimmed(segs[i]), field, k))
            ==> find_field(segs, field) is Some,
    decreases segs.len(),
{
    if segs.len() > 0 {
        law_field_named_exactly(segs.drop_first(), field);
        let seg = trimmed(segs[0]);
        let rest = seg.drop_first();
        lemma_first_white_found(rest);
        if seg.len() > 0 && seg[0] == '.' {
            if let Some(k) = first_white(rest) {
                if rest.take(k as int) == field {
                    assert(rest.take(k as int) =~= seg.subrange(1, 1 + k as int));
                    assert forall|j: int| 0 <= j < k implies !is_white(#[trigger] seg[1 + j]) by {
                        assert(seg[1 + j] == rest[j]);
                    }
                    assert(seg[1 + k as int] == rest[k as int]);
                    assert(rest.skip(k as int) =~= seg.skip(1 + k as int));
                    assert(declares_field(seg, field, k as int));
                }
            }
        }
        if find_field(segs, field) is Some {
            if let Some(t) = find_field(segs, field) {
                if find_field(segs, field) != find_field(segs.drop_first(), field) {
                    let k = first_white(rest)->0;
                    assert(declares_field(trimmed(segs[0]), field, k as int));
                    assert(t == trimmed(trimmed(segs[0]).skip(1 + k as int)));
                } else {
                    let (i, k) = choose|i: int, k: int|
                        0 <= i < segs.drop_first().len() && declares_field(
                            trimmed(segs.drop_first()[i]),
                            field,
                            k,
                        ) && t == trimmed(trimmed(segs.drop_first()[i]).skip(1 + k));
                    assert(segs.drop_first()[i] == segs[i + 1]);
                }
            }
        }
        if exists|i: int, k: int| 0 <= i < segs.len() && declares_field(trimmed(segs[i]), field, k) {
            let (i, k) = choose|i: int, k: int|
                0 <= i < segs.len() && declares_field(trimmed(segs[i]), field, k);
            if i == 0 {
                assert forall|j: int| 0 <= j < k implies !is_white(#[trigger] rest[j]) by {
                    assert(rest[j] == seg[1 + j]);
                }
                lemma_first_white_is(rest, k);
                assert(rest.take(k) =~= seg.subrange(1, 1 + k));
            } else {
                assert(segs.drop_first()[i - 1] == segs[i]);
            }
        }
    }
}

/// The type of the named field `field` inside a rendered `struct<...>` type.
pub open spec fn struct_field_type(ty: Seq<char>, field: Seq<char>) -> Option<Seq<char>> {
    if ty.len() >= 7 && ty.take(7) == "struct<"@ {
        match close_from(ty.skip(7), 0, 1) {
            Some(k) => find_field(split_top(ty.skip(7).take(k), ','), field),
            None => None,
        }
    } else {
        None
    }
}

/// The first whitespace index in `cs[from..to]`, relative to `from`.
fn first_white_in(cs: &Vec<char>, from: usize, to: usize) -> (r: Option<usize>)
    requires
        from <= to <= cs@.len(),
    ensures
        match first_white(cs@.subrange(from as int, to as int)) {
            Some(k) => r == Some(k as usize),
            None => r is None,
        },
{
    let ghost s = cs@.subrange(from as int, to as int);
    let mut i = from;
    while i < to
        invariant
            from <= i <= to <= cs@.len(),
            s == cs@.subrange(from as int, to as int),
            forall|j: int| from <= j < i ==> !is_white(#[trigger] cs@[j]),
            first_white(s) == match first_white(cs@.subrange(i as int, to as int)) {
                Some(k) => Some((k + (i - from)) as nat),
                None => None::<nat>,
            },
        decreases to - i,
    {
        if is_white_char(cs[i]) {
            return Some(i - from);
        }
        proof {
            assert(cs@.subrange(i as int, to as int).drop_first() =~= cs@.subrange(
                i + 1,
                to as int,
            ));
        }
        i += 1;
    }
    None
}

/// Whether `cs[from..to]` spells `word`.
fn spells(cs: &Vec<char>, from: usize, to: usize, word: &Vec<char>) -> (b: bool)
    requires
        from <= to <= cs@.len(),
    ensures
        b == (cs@.subrange(from as int, to as int) == word@),
{
    if to - from != word.len() {
        return false;
    }
    let mut i: usize = 0;
    while i < word.len()
        invariant
            to - from == word@.len(),
            from <= to <= cs@.len(),
            i <= word@.len(),
            forall|j: int| 0 <= j < i ==> cs@[from + j] == word@[j],
        decreases word@.len() - i,
    {
        if cs[from + i] != word[i] {
            assert(cs@.subrange(from as int, to as int)[i as int] != word@[i as int]);
            return false;
        }
        i += 1;
    }
    assert(cs@.subrange(from as int, to as int) =~= word@);
    true
}

/// The type of the named field `field` inside a rendered `struct<...>` type
/// string, e.g. `field_type_in_struct("struct<.succ Int -> Int, .add Int -> Int
/// -> Int>", "succ")` → `Some("Int -> Int")`.  Handles arrow types (`->`) and
/// nested `struct<...>` values.
pub fn field_type_in_struct(struct_ty: &str, field: &str) -> (r: Option<String>)
    requires
        struct_ty@.len() < i64::MAX,
    ensures
        match struct_field_type(struct_ty@, field@) {
            Some(t) => r matches Some(s) && s@ == t,
            None => r is None,
        },
{
    let ty = chars_of(struct_ty);
    proof {
        reveal_strlit("struct<");
    }
    if !(ty.len() >= 7 && ty[0] == 's' && ty[1] == 't' && ty[2] == 'r' && ty[3] == 'u' && ty[4]
        == 'c' && ty[5] == 't' && ty[6] == '<') {
        proof {
            if ty@.len() >= 7 && ty@.take(7) == "struct<"@ {
                assert(ty@.take(7)[0] == 's');
                assert(ty@.take(7)[6] == '<');
                assert(ty@[1] == ty@.take(7)[1] && ty@[2] == ty@.take(7)[2]);
                assert(ty@[3] == ty@.take(7)[3] && ty@[4] == ty@.take(7)[4]);
                assert(ty@[5] == ty@.take(7)[5]);
            }
        }
        return None;
    }
    assert(ty@.take(7) =~= "struct<"@);
    let inner = struct_ty.substring_char(7, ty.len());
    assert(inner@ =~= struct_ty@.skip(7));
    let body = match match_close(inner) {
        Some(b) => b,
        None => {
            return None;
        },
    };
    proof {
        lemma_close_from(inner@, 0, 1);
        assert(inner@ =~= ty@.skip(7));
    }
    let segs = split_top_level(body, ',');
    let want = chars_of(field);
    let ghost all = segs@.map_values(|t: &str| t@);
    assert(all.skip(0) =~= all);
    let mut n: usize = 0;
    while n < segs.len()
        invariant
            n <= segs@.len(),
            all == segs@.map_values(|t: &str| t@),
            all == split_top(inner@.take(close_from(inner@, 0, 1)->0), ','),
            close_from(inner@, 0, 1) is Some,
            inner@ == struct_ty@.skip(7),
            want@ == field@,
            struct_field_type(struct_ty@, field@) == find_field(all.skip(n as int), field@),
        decreases segs@.len() - n,
    {
        let seg = chars_of(segs[n]);
        let (a, b) = trim_range(&seg, 0, seg.len());
        let ghost rest_segs = all.skip(n as int);
        proof {
            assert(seg@.subrange(0, seg@.len() as int) =~= seg@);
            assert(rest_segs[0] == seg@);
            assert(rest_segs.drop_first() =~= all.skip(n + 1));
        }
        if a < b && seg[a] == '.' {
            let ghost tr = seg@.subrange(a as int, b as int);
            proof {
                assert(tr.drop_first() =~= seg@.subrange(a + 1, b as int));
            }
            proof {
                lemma_first_white(seg@.subrange(a + 1, b as int));
            }
            match first_white_in(&seg, a + 1, b) {
                Some(k) => {
                    proof {
                        assert(seg@.subrange(a + 1, b as int).take(k as int) =~= seg@.subrange(
                            a + 1,
                            a + 1 + k,
                        ));
                        assert(seg@.subrange(a + 1, b as int).skip(k as int) =~= seg@.subrange(
                            a + 1 + k,
                            b as int,
                        ));
                    }
                    if spells(&seg, a + 1, a + 1 + k, &want) {
                        let (c, d) = trim_range(&seg, a + 1 + k, b);
                        let text = segs[n].substring_char(c, d);
                        return Some(String::from_str(text));
                    }
                },
                None => {},
            }
        }
        n += 1;
    }
    proof {
        assert(all.skip(n as int).len() == 0);
    }
    None
}

} // verus!
