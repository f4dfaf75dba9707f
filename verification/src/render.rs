//! Diagnostic rendering: source carets.
//!
//! ```text
//! error: unresolved name 'y'
//!   --> 1:6
//!    |
//!  1 | x => y
//!    |      ^
//! ```

use vstd::prelude::*;

use crate::diag::{Diag, DiagView};
use crate::lex::chars_of;

verus! {

// ---------------------------------------------------------------------------
// Decimal numerals

pub open spec fn digit_char(d: nat) -> char {
    ((48 + d) as u32) as char
}

/// The decimal spelling of `n`, most significant digit first.
pub open spec fn decimal(n: nat) -> Seq<char>
    decreases n,
{
    if n < 10 {
        seq![digit_char(n)]
    } else {
        decimal(n / 10).push(digit_char(n % 10))
    }
}

fn digit_str(d: usize) -> (s: &'static str)
    requires
        d < 10,
    ensures
        s@ == seq![digit_char(d as nat)],
{
    proof {
        reveal_strlit("0");
        reveal_strlit("1");
        reveal_strlit("2");
        reveal_strlit("3");
        reveal_strlit("4");
        reveal_strlit("5");
        reveal_strlit("6");
        reveal_strlit("7");
        reveal_strlit("8");
        reveal_strlit("9");
    }
    let s = match d {
        0 => "0",
        1 => "1",
        2 => "2",
        3 => "3",
        4 => "4",
        5 => "5",
        6 => "6",
        7 => "7",
        8 => "8",
        _ => "9",
    };
    assert(s@ =~= seq![digit_char(d as nat)]);
    s
}

/// Append the decimal spelling of `n` to `out`.
pub fn push_decimal(out: &mut String, n: usize)
    ensures
        final(out)@ == old(out)@ + decimal(n as nat),
    decreases n,
{
    if n >= 10 {
        push_decimal(out, n / 10);
    }
    out.append(digit_str(n % 10));
    proof {
        if n >= 10 {
            assert(old(out)@ + decimal(n as nat) =~= old(out)@ + decimal((n / 10) as nat) + seq![
                digit_char((n % 10) as nat),
            ]);
        } else {
            assert(old(out)@ + decimal(n as nat) =~= old(out)@ + seq![digit_char(n as nat)]);
        }
    }
}

/// `prefix`, the decimal spelling of `n`, then `suffix`.
pub fn decimal_message(prefix: &str, n: usize, suffix: &str) -> (m: String)
    ensures
        m@ == prefix@ + decimal(n as nat) + suffix@,
{
    let mut m = String::from_str(prefix);
    push_decimal(&mut m, n);
    m.append(suffix);
    m
}

// ---------------------------------------------------------------------------
// Source lines

/// The index of the first newline at or after `start` (the text's length if
/// there is none).
pub open spec fn line_end(cs: Seq<char>, start: int) -> int
    decreases cs.len() - start,
{
    if start < 0 || start >= cs.len() || cs[start] == '\n' {
        start
    } else {
        line_end(cs, start + 1)
    }
}

/// A line ends at or after its start, at a newline or the end of the text.
pub proof fn lemma_line_end(cs: Seq<char>, start: int)
    requires
        0 <= start <= cs.len(),
    ensures
        start <= line_end(cs, start) <= cs.len(),
        line_end(cs, start) < cs.len() ==> cs[line_end(cs, start)] == '\n',
        forall|i: int| start <= i < line_end(cs, start) ==> #[trigger] cs[i] != '\n',
    decreases cs.len() - start,
{
    if start < cs.len() && cs[start] != '\n' {
        lemma_line_end(cs, start + 1);
    }
}

/// A line's text: a line ended by a newline loses that newline and, before
/// it, one carriage return (`\r\n`); the last line keeps a lone `\r`.
pub open spec fn line_text(cs: Seq<char>, start: int, end: int) -> Seq<char> {
    let seg = cs.subrange(start, end);
    if end < cs.len() && seg.len() > 0 && seg.last() == '\r' {
        seg.drop_last()
    } else {
        seg
    }
}

/// Line `k` (0-based) of the text from `start`, as `str::lines` splits it:
/// a text ending in a newline has no empty last line, and the empty text
/// has no lines.
pub open spec fn nth_line_from(cs: Seq<char>, start: int, k: nat) -> Option<Seq<char>>
    decreases cs.len() - start,
{
    if start < 0 || start >= cs.len() {
        None
    } else {
        let end = line_end(cs, start);
        if k == 0 {
            Some(line_text(cs, start, end))
        } else if end >= cs.len() {
            None
        } else {
            proof {
                lemma_line_end(cs, start);
            }
            nth_line_from(cs, end + 1, (k - 1) as nat)
        }
    }
}

pub open spec fn nth_line(cs: Seq<char>, k: nat) -> Option<Seq<char>> {
    nth_line_from(cs, 0, k)
}

/// How many newlines `s` holds.
pub open spec fn newlines(s: Seq<char>) -> nat
    decreases s.len(),
{
    if s.len() == 0 {
        0
    } else {
        newlines(s.drop_last()) + if s.last() == '\n' {
            1nat
        } else {
            0nat
        }
    }
}

/// Newlines add up over a concatenation.
proof fn lemma_newlines_concat(a: Seq<char>, b: Seq<char>)
    ensures
        newlines(a + b) == newlines(a) + newlines(b),
    decreases b.len(),
{
    if b.len() > 0 {
        assert((a + b).drop_last() =~= a + b.drop_last());
        lemma_newlines_concat(a, b.drop_last());
    } else {
        assert(a + b =~= a);
    }
}

/// A stretch without a newline holds none.
proof fn lemma_newlines_none(s: Seq<char>)
    requires
        forall|i: int| 0 <= i < s.len() ==> s[i] != '\n',
    ensures
        newlines(s) == 0,
    decreases s.len(),
{
    if s.len() > 0 {
        lemma_newlines_none(s.drop_last());
    }
}

/// From a line start, the newlines up to the next line start are the one
/// ending the first line.
proof fn lemma_newlines_to(cs: Seq<char>, start: int, s: int)
    requires
        0 <= start < s <= cs.len(),
        cs[s - 1] == '\n',
    ensures
        line_end(cs, start) < s,
        newlines(cs.subrange(start, s)) == 1 + newlines(cs.subrange(line_end(cs, start) + 1, s)),
{
    lemma_line_end(cs, start);
    let end = line_end(cs, start);
    if end >= s {
        assert(cs[s - 1] != '\n');
    }
    assert(cs.subrange(start, s) =~= cs.subrange(start, end) + cs.subrange(end, end + 1)
        + cs.subrange(end + 1, s));
    lemma_newlines_concat(cs.subrange(start, end) + cs.subrange(end, end + 1), cs.subrange(end + 1, s));
    lemma_newlines_concat(cs.subrange(start, end), cs.subrange(end, end + 1));
    assert forall|i: int| 0 <= i < end - start implies cs.subrange(start, end)[i] != '\n' by {
        assert(cs.subrange(start, end)[i] == cs[start + i]);
    }
    lemma_newlines_none(cs.subrange(start, end));
    let nl = cs.subrange(end, end + 1);
    assert(nl.drop_last() =~= Seq::<char>::empty());
    assert(nl.last() == '\n');
    assert(newlines(nl.drop_last()) == 0);
    assert(newlines(nl) == 1);
}

/// Whether a line of `cs` starts at `s`: at the start of the text or just
/// after a newline, with text left.
pub open spec fn starts_line(cs: Seq<char>, s: int) -> bool {
    0 <= s < cs.len() && (s == 0 || cs[s - 1] == '\n')
}

proof fn lemma_line_at(cs: Seq<char>, start: int, s: int)
    requires
        0 <= start <= s < cs.len(),
        s == start || cs[s - 1] == '\n',
    ensures
        nth_line_from(cs, start, newlines(cs.subrange(start, s))) == Some(
            line_text(cs, s, line_end(cs, s)),
        ),
    decreases s - start,
{
    if s == start {
        assert(cs.subrange(start, s) =~= Seq::<char>::empty());
    } else {
        lemma_newlines_to(cs, start, s);
        lemma_line_end(cs, start);
        lemma_line_at(cs, line_end(cs, start) + 1, s);
    }
}

proof fn lemma_line_found(cs: Seq<char>, start: int, k: nat)
    requires
        0 <= start,
        start == 0 || (start <= cs.len() && cs[start - 1] == '\n'),
        nth_line_from(cs, start, k) is Some,
    ensures
        exists|s: int|
            start <= s && starts_line(cs, s) && newlines(cs.subrange(start, s)) == k
                && nth_line_from(cs, start, k) == Some(line_text(cs, s, line_end(cs, s))),
    decreases cs.len() - start,
{
    let end = line_end(cs, start);
    lemma_line_end(cs, start);
    if k == 0 {
        assert(cs.subrange(start, start) =~= Seq::<char>::empty());
        assert(starts_line(cs, start));
    } else {
        lemma_line_found(cs, end + 1, (k - 1) as nat);
        let s = choose|s: int|
            end + 1 <= s && starts_line(cs, s) && newlines(cs.subrange(end + 1, s)) == (k - 1) as nat
                && nth_line_from(cs, end + 1, (k - 1) as nat) == Some(line_text(cs, s, line_end(cs, s)));
        lemma_newlines_to(cs, start, end + 1);
        assert(line_end(cs, start) == end);
        assert(cs.subrange(start, s) =~= cs.subrange(start, end + 1) + cs.subrange(end + 1, s));
        lemma_newlines_concat(cs.subrange(start, end + 1), cs.subrange(end + 1, s));
        assert(cs.subrange(end + 1, end + 1) =~= Seq::<char>::empty());
    }
}

/// Lines are counted by newlines, as `str::lines` counts them: the line that
/// starts after the text's `k`-th newline (the first line for `k = 0`) is
/// line `k`, empty lines included; and every line the text has is such a
/// line, its text running to the next newline.
pub proof fn law_lines_count_newlines(cs: Seq<char>, s: int, k: nat)
    ensures
        starts_line(cs, s) ==> nth_line(cs, newlines(cs.take(s))) == Some(
            line_text(cs, s, line_end(cs, s)),
        ),
        nth_line(cs, k) is Some ==> exists|t: int|
            starts_line(cs, t) && newlines(cs.take(t)) == k && nth_line(cs, k) == Some(
                line_text(cs, t, line_end(cs, t)),
            ),
{
    if starts_line(cs, s) {
        lemma_line_at(cs, 0, s);
        assert(cs.subrange(0, s) =~= cs.take(s));
    }
    if nth_line(cs, k) is Some {
        lemma_line_found(cs, 0, k);
        let t = choose|t: int|
            0 <= t && starts_line(cs, t) && newlines(cs.subrange(0, t)) == k && nth_line_from(cs, 0, k)
                == Some(line_text(cs, t, line_end(cs, t)));
        assert(cs.subrange(0, t) =~= cs.take(t));
    }
}

/// Where line `k` lies in `cs`: the character range of its text.
fn find_line(cs: &Vec<char>, index: usize) -> (r: Option<(usize, usize)>)
    ensures
        match r {
            Some((a, b)) => a <= b <= cs@.len() && nth_line(cs@, index as nat) == Some(
                cs@.subrange(a as int, b as int),
            ),
            None => nth_line(cs@, index as nat) is None,
        },
{
    let mut start: usize = 0;
    let mut k = index;
    while start < cs.len()
        invariant
            start <= cs@.len(),
            nth_line_from(cs@, start as int, k as nat) == nth_line(cs@, index as nat),
        decreases cs@.len() - start,
    {
        let mut end = start;
        proof {
            lemma_line_end(cs@, start as int);
        }
        while end < cs.len() && cs[end] != '\n'
            invariant
                start < cs@.len(),
                nth_line_from(cs@, start as int, k as nat) == nth_line(cs@, index as nat),
                start <= end <= line_end(cs@, start as int),
                line_end(cs@, start as int) <= cs@.len(),
                line_end(cs@, start as int) < cs@.len() ==> cs@[line_end(cs@, start as int)]
                    == '\n',
                forall|i: int| start <= i < line_end(cs@, start as int) ==> #[trigger] cs@[i] != '\n',
            decreases cs@.len() - end,
        {
            end += 1;
        }
        if k == 0 {
            let mut stop = end;
            if end < cs.len() && end > start && cs[end - 1] == '\r' {
                stop = end - 1;
            }
            proof {
                let seg = cs@.subrange(start as int, end as int);
                if end < cs@.len() && seg.len() > 0 && seg.last() == '\r' {
                    assert(seg.drop_last() =~= cs@.subrange(start as int, stop as int));
                } else {
                    assert(seg =~= cs@.subrange(start as int, stop as int));
                }
            }
            return Some((start, stop));
        }
        if end >= cs.len() {
            return None;
        }
        k = k - 1;
        start = end + 1;
    }
    None
}

// ---------------------------------------------------------------------------
// Rendering

/// `n` spaces.
pub open spec fn spaces(n: nat) -> Seq<char> {
    Seq::new(n, |_i: int| ' ')
}

/// The rendered diagnostic: the message, then — for a spanned diagnostic —
/// the `line:col` pointer and, when the line exists in the source, the line
/// itself with a caret under the column.
pub open spec fn rendered(cs: Seq<char>, d: DiagView) -> Seq<char> {
    let head = "error: "@ + d.message + "\n"@;
    match d.span {
        None => head,
        Some((line, col)) => {
            let at = "  --> "@ + decimal(line as nat) + ":"@ + decimal(col as nat) + "\n"@
                + "   |\n"@;
            let index = if line >= 1 {
                (line - 1) as nat
            } else {
                0
            };
            let indent = if col >= 1 {
                (col - 1) as nat
            } else {
                0
            };
            match nth_line(cs, index) {
                Some(text) => head + at + " "@ + decimal(line as nat) + " | "@ + text + "\n"@
                    + "   | "@ + spaces(indent) + "^\n"@,
                None => head + at,
            }
        },
    }
}

/// Append `n` spaces to `out`.
fn push_spaces(out: &mut String, n: u32)
    ensures
        final(out)@ == old(out)@ + spaces(n as nat),
{
    proof {
        reveal_strlit(" ");
    }
    let mut i: u32 = 0;
    while i < n
        invariant
            i <= n,
            out@ == old(out)@ + spaces(i as nat),
        decreases n - i,
    {
        proof {
            reveal_strlit(" ");
        }
        out.append(" ");
        assert(spaces((i + 1) as nat) =~= spaces(i as nat) + seq![' ']);
        assert(old(out)@ + spaces((i + 1) as nat) =~= old(out)@ + spaces(i as nat) + seq![' ']);
        i += 1;
    }
}

#[verifier::spinoff_prover]
pub fn render(source: &str, diag: &Diag) -> (out: String)
    ensures
        out@ == rendered(source@, diag@),
{
    let mut out = String::from_str("error: ");
    out.append(diag.message.as_str());
    out.append("\n");
    if let Some((line, col)) = diag.span {
        out.append("  --> ");
        push_decimal(&mut out, line as usize);
        out.append(":");
        push_decimal(&mut out, col as usize);
        out.append("\n");
        out.append("   |\n");
        let cs = chars_of(source);
        let index = if line >= 1 {
            (line - 1) as usize
        } else {
            0
        };
        if let Some((a, b)) = find_line(&cs, index) {
            out.append(" ");
            push_decimal(&mut out, line as usize);
            out.append(" | ");
            out.append(source.substring_char(a, b));
            out.append("\n");
            out.append("   | ");
            push_spaces(
                &mut out,
                if col >= 1 {
                    col - 1
                } else {
                    0
                },
            );
            out.append("^\n");
        }
    }
    proof {
        let d = diag@;
        match d.span {
            None => {
                assert(out@ =~= rendered(source@, d));
            },
            Some((line, col)) => {
                assert(out@ =~= rendered(source@, d));
            },
        }
    }
    out
}

} // verus!
