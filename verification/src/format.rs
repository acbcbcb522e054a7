//! How texts made of words, spaces and commas come apart again: lemmas
//! about runs, pieces and trimmed texts of concatenations.

use crate::ir::comma_list;
use crate::loader::split;
use crate::text::{in_class, lemma_run_len, lemma_tail_len, run_len, trimmed, CharClass};
use vstd::prelude::*;

verus! {

/// Whether a character does not occur in a text.
pub open spec fn lacks(s: Seq<char>, c: char) -> bool {
    forall|i: int| 0 <= i < s.len() ==> s[i] != c
}

/// Whether a text has a first and a last character and neither is a space.
pub open spec fn tight(s: Seq<char>) -> bool {
    s.len() > 0 && s[0] != ' ' && s.last() != ' '
}

/// The run of the characters other than `c` at the start of a text that `c`
/// follows is the text before `c`.
pub proof fn lemma_run_stops(a: Seq<char>, c: char, b: Seq<char>)
    requires
        lacks(a, c),
    ensures
        run_len(a + seq![c] + b, CharClass::Not(c)) == a.len(),
        (a + seq![c] + b).take(a.len() as int) == a,
        (a + seq![c] + b).skip(a.len() as int + 1) == b,
{
    let s = a + seq![c] + b;
    assert forall|k: int| 0 <= k < a.len() implies in_class(CharClass::Not(c), #[trigger] s[k]) by {
        assert(s[k] == a[k]);
    }
    assert(s[a.len() as int] == c);
    lemma_run_len(s, CharClass::Not(c), a.len());
    assert(s.take(a.len() as int) =~= a);
    assert(s.skip(a.len() as int + 1) =~= b);
}

/// The run of the characters other than `c` at the start of a text without
/// `c` is the text.
pub proof fn lemma_run_all(a: Seq<char>, c: char)
    requires
        lacks(a, c),
    ensures
        run_len(a, CharClass::Not(c)) == a.len(),
{
    assert forall|k: int| 0 <= k < a.len() implies in_class(CharClass::Not(c), #[trigger] a[k]) by {}
    lemma_run_len(a, CharClass::Not(c), a.len());
}

/// A text without the separator is one piece.
pub proof fn lemma_split_one(a: Seq<char>, c: char)
    requires
        lacks(a, c),
    ensures
        split(a, c) == seq![a],
{
    lemma_run_all(a, c);
}

/// The pieces of a text that starts with a piece and the separator.
pub proof fn lemma_split_first(a: Seq<char>, c: char, b: Seq<char>)
    requires
        lacks(a, c),
    ensures
        split(a + seq![c] + b, c) == seq![a] + split(b, c),
{
    lemma_run_stops(a, c, b);
}

/// A text between whose first and last character no space has to go is
/// what is left of it without the spaces around it.
pub proof fn lemma_trimmed_tight(s: Seq<char>)
    requires
        tight(s),
    ensures
        trimmed(s) == s,
        trimmed(seq![' '] + s) == s,
{
    lemma_run_len(s, CharClass::Blank, 0);
    assert(s.skip(0) =~= s);
    lemma_tail_len(s, CharClass::Blank, 0);
    assert(s.take(s.len() as int) =~= s);
    let t = seq![' '] + s;
    assert(t[0] == ' ');
    assert(t[1] == s[0]);
    lemma_run_len(t, CharClass::Blank, 1);
    assert(t.skip(1) =~= s);
}

/// Nothing is left of nothing.
pub proof fn lemma_trimmed_empty()
    ensures
        trimmed(Seq::empty()) == Seq::<char>::empty(),
{
    let s = Seq::<char>::empty();
    assert(s.skip(0) =~= s);
    assert(s.take(0) =~= s);
}

/// A list of more than one item is its first item, a comma and a space,
/// and the list of the other items.
pub proof fn lemma_comma_list_front(items: Seq<Seq<char>>)
    requires
        items.len() >= 2,
    ensures
        comma_list(items) == items[0] + seq![',', ' '] + comma_list(items.skip(1)),
    decreases items.len(),
{
    reveal_strlit(", ");
    assert(", "@ =~= seq![',', ' ']);
    if items.len() == 2 {
        assert(items.drop_last() =~= seq![items[0]]);
        assert(items.skip(1) =~= seq![items[1]]);
        assert(comma_list(items.drop_last()) == items[0]);
        assert(comma_list(items.skip(1)) == items[1]);
    } else {
        lemma_comma_list_front(items.drop_last());
        assert(items.drop_last().skip(1) =~= items.skip(1).drop_last());
        assert(items.skip(1).last() == items.last());
        assert(comma_list(items) =~= items[0] + seq![',', ' '] + comma_list(items.skip(1)));
    }
}

/// Whether each item of a list is tight and without a comma.
pub open spec fn listable(items: Seq<Seq<char>>) -> bool {
    forall|i: int| 0 <= i < items.len() ==> tight(#[trigger] items[i]) && lacks(items[i], ',')
}

/// The pieces of a list between its commas are its items: the first as it
/// is, each other after a space.
pub proof fn lemma_list_pieces(items: Seq<Seq<char>>)
    requires
        items.len() >= 1,
        listable(items),
    ensures
        split(comma_list(items), ',').len() == items.len(),
        forall|i: int|
            0 <= i < items.len() ==> trimmed(#[trigger] split(comma_list(items), ',')[i])
                == items[i],
        tight(comma_list(items)),
    decreases items.len(),
{
    if items.len() == 1 {
        lemma_split_one(items[0], ',');
        lemma_trimmed_tight(items[0]);
    } else {
        let rest = items.skip(1);
        lemma_comma_list_front(items);
        lemma_list_pieces(rest);
        let tail = seq![' '] + comma_list(rest);
        assert(comma_list(items) =~= items[0] + seq![','] + tail);
        lemma_split_first(items[0], ',', tail);
        lemma_split_lead(comma_list(rest));
        let pieces = split(comma_list(items), ',');
        let inner = split(comma_list(rest), ',');
        assert(pieces =~= seq![items[0]] + split(tail, ','));
        lemma_trimmed_tight(items[0]);
        assert forall|i: int| 0 <= i < items.len() implies trimmed(#[trigger] pieces[i])
            == items[i] by {
            if i == 0 {
            } else if i == 1 {
                assert(pieces[1] == split(tail, ',')[0]);
                assert(trimmed(inner[0]) == rest[0]);
                lemma_trimmed_lead(inner[0], rest[0]);
            } else {
                assert(pieces[i] == split(tail, ',')[i - 1]);
                assert(split(tail, ',')[i - 1] == inner[i - 1]);
                assert(trimmed(inner[i - 1]) == rest[i - 1]);
            }
        }
        assert(comma_list(items).last() == comma_list(rest).last());
    }
}

/// A space before a text goes to its first piece.
pub proof fn lemma_split_lead(s: Seq<char>)
    ensures
        split(seq![' '] + s, ',').len() == split(s, ',').len(),
        split(seq![' '] + s, ',')[0] == seq![' '] + split(s, ',')[0],
        forall|i: int|
            1 <= i < split(s, ',').len() ==> #[trigger] split(seq![' '] + s, ',')[i] == split(
                s,
                ',',
            )[i],
{
    let t = seq![' '] + s;
    let n = run_len(s, CharClass::Not(',')) as int;
    crate::text::lemma_run_len_bound(s, CharClass::Not(','));
    assert(t.skip(1) =~= s);
    assert(run_len(t, CharClass::Not(',')) == n + 1);
    if n < s.len() {
        assert(t.take(n + 1) =~= seq![' '] + s.take(n));
        assert(t.skip(n + 2) =~= s.skip(n + 1));
    }
}

/// What is left of a text after a space that stood before it.
pub proof fn lemma_trimmed_lead(s: Seq<char>, wanted: Seq<char>)
    requires
        trimmed(s) == wanted,
        tight(wanted),
    ensures
        trimmed(seq![' '] + s) == wanted,
{
    let t = seq![' '] + s;
    assert(t.skip(1) =~= s);
    let k = run_len(s, CharClass::Blank) as int;
    crate::text::lemma_run_len_bound(s, CharClass::Blank);
    assert(run_len(t, CharClass::Blank) == k + 1);
    assert(t.skip(k + 1) =~= s.skip(k));
}

/// A list lacks a character that its items lack, unless it is the comma
/// or the space.
pub proof fn lemma_list_lacks(items: Seq<Seq<char>>, c: char)
    requires
        c != ',',
        c != ' ',
        forall|i: int| 0 <= i < items.len() ==> lacks(#[trigger] items[i], c),
    ensures
        lacks(comma_list(items), c),
    decreases items.len(),
{
    reveal_strlit(", ");
    if items.len() >= 2 {
        lemma_list_lacks(items.drop_last(), c);
        let before = comma_list(items.drop_last());
        let all = comma_list(items);
        assert(all == before + ", "@ + items.last());
        assert forall|i: int| 0 <= i < all.len() implies all[i] != c by {
            if i < before.len() {
                assert(all[i] == before[i]);
            } else if i < before.len() + 2 {
                assert(all[i] == ", "@[i - before.len()]);
            } else {
                assert(all[i] == items.last()[i - before.len() - 2]);
            }
        }
    }
}

} // verus!
