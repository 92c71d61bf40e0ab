//! Texts over the ASCII characters: which characters occur in a text, the
//! dense codes that number them, and how often a character occurs.

use crate::bits::{count_set, lemma_count_set_split, lemma_count_set_take_step};
use crate::levels::cnt_eq;
use vstd::prelude::*;
use vstd::utf8::is_ascii_chars;

verus! {

/// Whether the character with number `c` occurs in `text`.
pub open spec fn occurs(text: Seq<char>, c: int) -> bool {
    exists|i: int| 0 <= i < text.len() && text[i] as int == c
}

/// For each of the 128 ASCII characters, whether it occurs in `text`.
pub open spec fn presence_of(text: Seq<char>) -> Seq<bool> {
    Seq::new(128, |c: int| occurs(text, c))
}

/// The code of the character with number `c`: how many characters that are
/// present come before it.
pub open spec fn code_of(present: Seq<bool>, c: int) -> nat {
    count_set(present.take(c))
}

/// The codes of the characters of `text`, in order.
pub open spec fn codes_of(text: Seq<char>, present: Seq<bool>) -> Seq<nat> {
    Seq::new(text.len(), |i: int| code_of(present, text[i] as int))
}

/// How many of the first `i` characters of `text` are `c`.
pub open spec fn occurrences(text: Seq<char>, c: char, i: nat) -> nat
    decreases i,
{
    if i == 0 {
        0
    } else {
        occurrences(text, c, (i - 1) as nat) + if text[i - 1] == c {
            1nat
        } else {
            0nat
        }
    }
}

/// `j` is the position of the `r`-th occurrence of `c` in `text`, counted
/// from one.
pub open spec fn is_occurrence(text: Seq<char>, c: char, r: nat, j: int) -> bool {
    &&& 0 <= j < text.len()
    &&& text[j] == c
    &&& occurrences(text, c, (j + 1) as nat) == r
}

/// The positions among the first `i` at which `c` stands in `text`.
pub open spec fn positions_of(text: Seq<char>, c: char, i: nat) -> Set<int> {
    Set::new(|j: int| 0 <= j < i && text[j] == c)
}

/// The ASCII characters with a number below `k` that occur in `text`.
pub open spec fn chars_below(text: Seq<char>, k: int) -> Set<char> {
    Set::new(|c: char| (c as int) < k && text.contains(c))
}

/// The number of a character is not negative.
proof fn lemma_char_number(c: char)
    ensures
        c as int >= 0,
{
}

/// A character occurs in one more character of a text if it occurs in the
/// text so far or is the one more.
pub proof fn lemma_occurs_step(text: Seq<char>, i: int, c: int)
    requires
        0 <= i < text.len(),
    ensures
        occurs(text.take(i + 1), c) == (occurs(text.take(i), c) || text[i] as int == c),
        occurs(text.take(text.len() as int), c) == occurs(text, c),
{
    let before = text.take(i);
    let after = text.take(i + 1);
    if text[i] as int == c {
        assert(after[i] as int == c);
    }
    if occurs(before, c) {
        let k = choose|k: int| 0 <= k < before.len() && before[k] as int == c;
        assert(after[k] as int == c);
    }
    if occurs(after, c) && text[i] as int != c {
        let k = choose|k: int| 0 <= k < after.len() && after[k] as int == c;
        assert(before[k] as int == c);
    }
    assert(text.take(text.len() as int) =~= text);
}

/// Codes grow with the characters: of two present characters, the smaller
/// has the smaller code.
pub proof fn lemma_code_increasing(present: Seq<bool>, c1: int, c2: int)
    requires
        0 <= c1 < c2 < present.len(),
        present[c1],
    ensures
        code_of(present, c1) < code_of(present, c2),
        code_of(present, c2) <= count_set(present),
        present[c2] ==> code_of(present, c2) < count_set(present),
{
    lemma_count_set_take_step(present, c1);
    lemma_count_set_split(present, c1 + 1, c2);
    lemma_count_set_split(present, c2, present.len() as int);
    assert(present.take(present.len() as int) =~= present);
    lemma_count_set_take_step(present, c2);
    lemma_count_set_split(present, c2 + 1, present.len() as int);
}

/// A present character's code is below the number of present characters.
pub proof fn lemma_code_bound(present: Seq<bool>, c: int)
    requires
        0 <= c < present.len(),
        present[c],
    ensures
        code_of(present, c) < count_set(present),
{
    lemma_count_set_take_step(present, c);
    lemma_count_set_split(present, c + 1, present.len() as int);
    assert(present.take(present.len() as int) =~= present);
}

/// Two present characters with one code are one character.
pub proof fn lemma_code_injective(present: Seq<bool>, c1: char, c2: char)
    requires
        (c1 as int) < present.len(),
        (c2 as int) < present.len(),
        present[c1 as int],
        present[c2 as int],
        code_of(present, c1 as int) == code_of(present, c2 as int),
    ensures
        c1 == c2,
{
    if (c1 as int) < (c2 as int) {
        lemma_code_increasing(present, c1 as int, c2 as int);
    } else if (c2 as int) < (c1 as int) {
        lemma_code_increasing(present, c2 as int, c1 as int);
    }
}

/// A text in which two characters differ has an alphabet of two or more.
pub proof fn lemma_two_characters(text: Seq<char>, i: int, j: int)
    requires
        is_ascii_chars(text),
        0 <= i < text.len(),
        0 <= j < text.len(),
        text[i] != text[j],
    ensures
        count_set(presence_of(text)) >= 2,
{
    let present = presence_of(text);
    lemma_codes_bound(text, i);
    lemma_codes_bound(text, j);
    if code_of(present, text[i] as int) == code_of(present, text[j] as int) {
        lemma_code_injective(present, text[i], text[j]);
    }
}

/// Every code below the number of present characters is the code of one of them.
pub proof fn lemma_code_onto(present: Seq<bool>, k: nat, m: int) -> (c: int)
    requires
        0 <= m <= present.len(),
        k < count_set(present.take(m)),
    ensures
        0 <= c < m,
        present[c],
        code_of(present, c) == k,
    decreases m,
{
    if m == 0 {
        assert(present.take(0) =~= Seq::<bool>::empty());
        0
    } else {
        lemma_count_set_take_step(present, m - 1);
        if k < count_set(present.take(m - 1)) {
            lemma_code_onto(present, k, m - 1)
        } else {
            m - 1
        }
    }
}

/// Every character of an ASCII text is present in its alphabet, with a
/// code below the size of the alphabet.
pub proof fn lemma_codes_bound(text: Seq<char>, i: int)
    requires
        is_ascii_chars(text),
        0 <= i < text.len(),
    ensures
        presence_of(text)[text[i] as int],
        codes_of(text, presence_of(text))[i] < count_set(presence_of(text)),
{
    assert(text[i] <= '\u{7f}');
    assert(occurs(text, text[i] as int));
    lemma_code_bound(presence_of(text), text[i] as int);
}

/// Counting a code among the codes of a text counts its character in the text.
pub proof fn lemma_codes_count(text: Seq<char>, c: char, i: nat)
    requires
        is_ascii_chars(text),
        i <= text.len(),
        (c as int) < 128,
        presence_of(text)[c as int],
    ensures
        cnt_eq(
            codes_of(text, presence_of(text)),
            1,
            code_of(presence_of(text), c as int),
            i,
        ) == occurrences(text, c, i),
    decreases i,
{
    if i > 0 {
        lemma_codes_count(text, c, (i - 1) as nat);
        let present = presence_of(text);
        let d = text[i - 1];
        lemma_codes_bound(text, i - 1);
        if code_of(present, d as int) == code_of(present, c as int) {
            lemma_code_injective(present, d, c);
        }
    }
}

/// The presence bits of the characters below `k` count those that occur.
pub proof fn lemma_presence_counts(text: Seq<char>, k: int)
    requires
        0 <= k <= 128,
    ensures
        chars_below(text, k).finite(),
        chars_below(text, k).len() == count_set(presence_of(text).take(k)),
    decreases k,
{
    let present = presence_of(text);
    if k == 0 {
        assert forall|c: char| !chars_below(text, 0).contains(c) by {
            lemma_char_number(c);
        }
        assert(chars_below(text, 0) =~= Set::<char>::empty());
        assert(present.take(0) =~= Seq::<bool>::empty());
    } else {
        lemma_presence_counts(text, k - 1);
        lemma_count_set_take_step(present, k - 1);
        let before = chars_below(text, k - 1);
        let c = ((k - 1) as u8) as char;
        assert(c as int == k - 1);
        if present[k - 1] {
            let i = choose|i: int| 0 <= i < text.len() && text[i] as int == k - 1;
            assert(text[i] == c);
            assert(text.contains(c));
            assert(chars_below(text, k) =~= before.insert(c));
        } else {
            assert forall|d: char| chars_below(text, k).contains(d) implies before.contains(
                d,
            ) by {
                if d as int == k - 1 {
                    let i = choose|i: int| 0 <= i < text.len() && text[i] == d;
                    assert(occurs(text, k - 1));
                }
            }
            assert(chars_below(text, k) =~= before);
        }
    }
}

/// The presence bits of an ASCII text count its distinct characters.
pub proof fn lemma_sigma_is_distinct(text: Seq<char>)
    requires
        is_ascii_chars(text),
    ensures
        text.to_set().finite(),
        count_set(presence_of(text)) == text.to_set().len(),
{
    lemma_presence_counts(text, 128);
    assert(presence_of(text).take(128) =~= presence_of(text));
    assert forall|c: char| text.to_set().contains(c) implies chars_below(text, 128).contains(
        c,
    ) by {
        let i = choose|i: int| 0 <= i < text.len() && text[i] == c;
        assert(text[i] <= '\u{7f}');
    }
    assert(chars_below(text, 128) =~= text.to_set());
}

/// Counting more of the text never counts fewer occurrences, and each
/// further character adds at most one.
pub proof fn lemma_occurrences_monotonic(text: Seq<char>, c: char, i: nat, j: nat)
    requires
        i <= j,
    ensures
        occurrences(text, c, i) <= occurrences(text, c, j) <= occurrences(text, c, i) + (j - i),
    decreases j,
{
    if i < j {
        lemma_occurrences_monotonic(text, c, i, (j - 1) as nat);
    }
}

/// The number of occurrences is the number of positions at which the
/// character stands.
pub proof fn lemma_occurrences_is_cardinality(text: Seq<char>, c: char, i: nat)
    ensures
        positions_of(text, c, i).finite(),
        positions_of(text, c, i).len() == occurrences(text, c, i),
    decreases i,
{
    if i == 0 {
        assert(positions_of(text, c, 0) =~= Set::<int>::empty());
    } else {
        lemma_occurrences_is_cardinality(text, c, (i - 1) as nat);
        let before = positions_of(text, c, (i - 1) as nat);
        if text[i - 1] == c {
            assert(positions_of(text, c, i) =~= before.insert(i - 1));
        } else {
            assert(positions_of(text, c, i) =~= before);
        }
    }
}

/// At most one position is the `r`-th occurrence of `c`.
pub proof fn lemma_occurrence_unique(text: Seq<char>, c: char, r: nat, i: int, j: int)
    requires
        is_occurrence(text, c, r, i),
        is_occurrence(text, c, r, j),
    ensures
        i == j,
{
    if i < j {
        lemma_occurrences_monotonic(text, c, (i + 1) as nat, j as nat);
    } else if j < i {
        lemma_occurrences_monotonic(text, c, (j + 1) as nat, i as nat);
    }
}

/// Every occurrence number from one to the number of occurrences has its position.
pub proof fn lemma_occurrence_exists(text: Seq<char>, c: char, r: nat, i: nat) -> (j: int)
    requires
        i <= text.len(),
        1 <= r <= occurrences(text, c, i),
    ensures
        0 <= j < i,
        is_occurrence(text, c, r, j),
    decreases i,
{
    if occurrences(text, c, (i - 1) as nat) >= r {
        lemma_occurrence_exists(text, c, r, (i - 1) as nat)
    } else {
        i - 1
    }
}

/// Select inverts rank: where `c` stands at position `i`, that position is
/// the occurrence of `c` that the rank at `i` names, and the only one.
pub proof fn lemma_select_rank_inverse(text: Seq<char>, c: char, i: int)
    requires
        0 <= i < text.len(),
        text[i] == c,
    ensures
        is_occurrence(text, c, occurrences(text, c, (i + 1) as nat), i),
        1 <= occurrences(text, c, (i + 1) as nat) <= occurrences(text, c, text.len()),
        forall|j: int| #[trigger]
            is_occurrence(text, c, occurrences(text, c, (i + 1) as nat), j) ==> j == i,
{
    let r = occurrences(text, c, (i + 1) as nat);
    lemma_occurrences_monotonic(text, c, (i + 1) as nat, text.len());
    assert forall|j: int| #[trigger] is_occurrence(text, c, r, j) implies j == i by {
        lemma_occurrence_unique(text, c, r, i, j);
    }
}

} // verus!
