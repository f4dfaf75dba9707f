//! Printer helpers shared by the diagnostics and type printers: the stable
//! `?a` names given to unbound type classes.

use vstd::prelude::*;

use crate::render::{decimal, digit_char, push_decimal};

verus! {

/// The `k`-th lowercase letter, `k < 26`.
pub open spec fn letter(k: nat) -> char {
    ((97 + k) as u32) as char
}

/// The name of the `i`-th unbound class: `?` and a letter, then — from the
/// 27th name on — the round of the alphabet: `0 → "?a"`, `1 → "?b"`, …,
/// `26 → "?a1"`, `27 → "?b1"`, ….
pub open spec fn class_name(i: nat) -> Seq<char> {
    let head = seq!['?', letter(i % 26)];
    if i / 26 == 0 {
        head
    } else {
        head + decimal(i / 26)
    }
}

/// `0 → "?a"`, `1 → "?b"`, …, `26 → "?a1"`, `27 → "?b1"`, …
pub fn letter_name(i: usize) -> (s: String)
    ensures
        s@ == class_name(i as nat),
{
    let alphabet = "abcdefghijklmnopqrstuvwxyz";
    proof {
        reveal_strlit("abcdefghijklmnopqrstuvwxyz");
        reveal_strlit("?");
        assert(alphabet@ =~= Seq::new(26, |k: int| letter(k as nat)));
    }
    let k = i % 26;
    let mut out = String::from_str("?");
    out.append(alphabet.substring_char(k, k + 1));
    let round = i / 26;
    if round != 0 {
        push_decimal(&mut out, round);
    }
    proof {
        assert(alphabet@.subrange(k as int, k + 1) =~= seq![letter(k as nat)]);
        assert(seq!['?'] + seq![letter(k as nat)] =~= seq!['?', letter(k as nat)]);
    }
    out
}

/// A decimal spelling has at least one digit, and two from 10 on.
proof fn lemma_decimal_len(n: nat)
    ensures
        decimal(n).len() >= 1,
        n >= 10 ==> decimal(n).len() >= 2,
    decreases n,
{
    if n >= 10 {
        lemma_decimal_len(n / 10);
    }
}

/// Digits spell their value: distinct digits are distinct characters.
proof fn lemma_digit_char_injective(a: nat, b: nat)
    requires
        a < 10,
        b < 10,
        digit_char(a) == digit_char(b),
    ensures
        a == b,
{
    assert(digit_char(a) as u32 == 48 + a);
    assert(digit_char(b) as u32 == 48 + b);
}

/// Distinct numbers have distinct decimal spellings.
proof fn lemma_decimal_injective(a: nat, b: nat)
    requires
        decimal(a) == decimal(b),
    ensures
        a == b,
    decreases a,
{
    lemma_decimal_len(a);
    lemma_decimal_len(b);
    if a < 10 && b < 10 {
        assert(decimal(a)[0] == digit_char(a));
        assert(decimal(b)[0] == digit_char(b));
        lemma_digit_char_injective(a, b);
    } else if a >= 10 && b >= 10 {
        let da = decimal(a);
        assert(da.drop_last() == decimal(a / 10));
        assert(decimal(b).drop_last() == decimal(b / 10));
        assert(da.last() == digit_char(a % 10));
        assert(decimal(b).last() == digit_char(b % 10));
        lemma_digit_char_injective(a % 10, b % 10);
        lemma_decimal_injective(a / 10, b / 10);
    } else {
        assert(decimal(a).len() != decimal(b).len());
    }
}

/// Distinct unbound classes get distinct names.
pub proof fn law_class_names_distinct(i: nat, j: nat)
    requires
        i != j,
    ensures
        class_name(i) != class_name(j),
{
    if class_name(i) == class_name(j) {
        assert(class_name(i)[1] == letter(i % 26));
        assert(class_name(j)[1] == letter(j % 26));
        assert(letter(i % 26) as u32 == 97 + i % 26);
        assert(letter(j % 26) as u32 == 97 + j % 26);
        assert(i % 26 == j % 26);
        if i / 26 == 0 || j / 26 == 0 {
            if i / 26 != 0 {
                lemma_decimal_len(i / 26);
                assert(class_name(i).len() > 2);
            }
            if j / 26 != 0 {
                lemma_decimal_len(j / 26);
                assert(class_name(j).len() > 2);
            }
        } else {
            assert(class_name(i).skip(2) =~= decimal(i / 26));
            assert(class_name(j).skip(2) =~= decimal(j / 26));
            lemma_decimal_injective(i / 26, j / 26);
        }
    }
}

} // verus!
