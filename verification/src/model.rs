//! Mathematical model of the tokenizer and the assemblers: how an
//! identifier splits into words and how words join back into one string.

use vstd::prelude::*;
use crate::casing::{is_upper_char, lower_word, upper_char, upper_word};

verus! {

/// The views of a sequence of borrowed words.
pub open spec fn word_views(ws: Seq<&str>) -> Seq<Seq<char>> {
    ws.map_values(|w: &str| w@)
}

/// Splitting state of the uppercase-boundary scan: `last` is the start of
/// the current span, `i` the position of the character looked at next.
/// A new word begins at every ASCII uppercase character; the span that ends
/// there is kept only when it is non-empty; the final span is always kept.
pub open spec fn split_upper_from(s: Seq<char>, last: int, i: int) -> Seq<Seq<char>>
    recommends
        0 <= last <= i <= s.len(),
    decreases s.len() - i when 0 <= i <= s.len()
{
    if i >= s.len() {
        seq![s.subrange(last, s.len() as int)]
    } else if is_upper_char(s[i]) {
        if last < i {
            seq![s.subrange(last, i)] + split_upper_from(s, i, i + 1)
        } else {
            split_upper_from(s, i, i + 1)
        }
    } else {
        split_upper_from(s, last, i + 1)
    }
}

/// The words of `s` under the uppercase-boundary rule (Pascal and Camel
/// sources). The empty string yields one empty word.
pub open spec fn split_upper(s: Seq<char>) -> Seq<Seq<char>> {
    split_upper_from(s, 0, 0)
}

/// Splitting state of the separator scan: every `_` ends the current span,
/// and every span is kept, empty ones included.
pub open spec fn split_sep_from(s: Seq<char>, last: int, i: int) -> Seq<Seq<char>>
    recommends
        0 <= last <= i <= s.len(),
    decreases s.len() - i when 0 <= i <= s.len()
{
    if i >= s.len() {
        seq![s.subrange(last, s.len() as int)]
    } else if s[i] == '_' {
        seq![s.subrange(last, i)] + split_sep_from(s, i + 1, i + 1)
    } else {
        split_sep_from(s, last, i + 1)
    }
}

/// The words of `s` under the separator rule (Snake and ScreamingSnake
/// sources): split on every `_`, keeping empty spans. The empty string
/// yields one empty word.
pub open spec fn split_sep(s: Seq<char>) -> Seq<Seq<char>> {
    split_sep_from(s, 0, 0)
}

/// A word as the Pascal assembler renders it: first character uppercased,
/// the rest lowercased; an empty word contributes nothing.
pub open spec fn pascal_word(w: Seq<char>) -> Seq<char> {
    if w.len() == 0 {
        Seq::empty()
    } else {
        seq![upper_char(w[0])] + lower_word(w.skip(1))
    }
}

/// Pascal assembly: every word rendered by `pascal_word`, concatenated
/// with no separator.
pub open spec fn pascal_of(ws: Seq<Seq<char>>) -> Seq<char>
    decreases ws.len(),
{
    if ws.len() == 0 {
        Seq::empty()
    } else {
        pascal_of(ws.drop_last()) + pascal_word(ws.last())
    }
}

/// A word as the Camel assembler renders every word after the first:
/// first character uppercased, the rest kept as it is.
pub open spec fn camel_word(w: Seq<char>) -> Seq<char> {
    if w.len() == 0 {
        Seq::empty()
    } else {
        seq![upper_char(w[0])] + w.skip(1)
    }
}

/// Camel assembly of the words after the first: each rendered by
/// `camel_word`, concatenated with no separator.
pub open spec fn camel_tail_of(ws: Seq<Seq<char>>) -> Seq<char>
    decreases ws.len(),
{
    if ws.len() == 0 {
        Seq::empty()
    } else {
        camel_tail_of(ws.drop_last()) + camel_word(ws.last())
    }
}

/// Camel assembly: the first word entirely lowercased, every later word
/// rendered by `camel_word`, concatenated with no separator.
pub open spec fn camel_of(ws: Seq<Seq<char>>) -> Seq<char> {
    if ws.len() == 0 {
        Seq::empty()
    } else {
        lower_word(ws[0]) + camel_tail_of(ws.skip(1))
    }
}

/// Join with `_`: a single `_` before each word but the first, empty
/// words kept, so an empty word doubles the separator.
pub open spec fn join_sep(ws: Seq<Seq<char>>) -> Seq<char>
    decreases ws.len(),
{
    if ws.len() == 0 {
        Seq::empty()
    } else if ws.len() == 1 {
        ws[0]
    } else {
        join_sep(ws.drop_last()) + seq!['_'] + ws.last()
    }
}

/// Snake assembly: every word lowercased, joined with single `_`
/// separators.
pub open spec fn snake_of(ws: Seq<Seq<char>>) -> Seq<char> {
    join_sep(ws.map_values(|w: Seq<char>| lower_word(w)))
}

/// ScreamingSnake assembly: every word uppercased, joined with single `_`
/// separators.
pub open spec fn screaming_of(ws: Seq<Seq<char>>) -> Seq<char> {
    join_sep(ws.map_values(|w: Seq<char>| upper_word(w)))
}

/// Concatenation of a sequence of words with no separator.
pub open spec fn concat_of(ws: Seq<Seq<char>>) -> Seq<char>
    decreases ws.len(),
{
    if ws.len() == 0 {
        Seq::empty()
    } else {
        concat_of(ws.drop_last()) + ws.last()
    }
}

/// Peeling the first word off a concatenation.
pub proof fn lemma_concat_cons(w: Seq<char>, ws: Seq<Seq<char>>)
    ensures
        concat_of(seq![w] + ws) == w + concat_of(ws),
    decreases ws.len(),
{
    if ws.len() == 0 {
        assert(seq![w] + ws =~= seq![w]);
        assert(seq![w].drop_last() =~= Seq::<Seq<char>>::empty());
        assert(concat_of(Seq::<Seq<char>>::empty()) == Seq::<char>::empty());
        assert(seq![w].last() == w);
        assert(concat_of(seq![w]) == Seq::<char>::empty() + w);
        assert(Seq::<char>::empty() + w =~= w + Seq::<char>::empty());
        assert(concat_of(seq![w]) =~= w + concat_of(ws));
    } else {
        assert((seq![w] + ws).drop_last() =~= seq![w] + ws.drop_last());
        assert((seq![w] + ws).last() == ws.last());
        lemma_concat_cons(w, ws.drop_last());
        assert(concat_of(seq![w] + ws) =~= w + concat_of(ws));
    }
}

/// Pascal assembly is the concatenation of the `pascal_word` renderings.
pub proof fn lemma_pascal_of_concat(ws: Seq<Seq<char>>)
    ensures
        pascal_of(ws) == concat_of(ws.map_values(|w: Seq<char>| pascal_word(w))),
    decreases ws.len(),
{
    let cs = ws.map_values(|w: Seq<char>| pascal_word(w));
    if ws.len() == 0 {
        assert(cs =~= Seq::<Seq<char>>::empty());
    } else {
        lemma_pascal_of_concat(ws.drop_last());
        assert(cs.drop_last() =~= ws.drop_last().map_values(|w: Seq<char>| pascal_word(w)));
        assert(cs.last() == pascal_word(ws.last()));
    }
}

/// Camel tail assembly is the concatenation of the `camel_word`
/// renderings.
pub proof fn lemma_camel_tail_of_concat(ws: Seq<Seq<char>>)
    ensures
        camel_tail_of(ws) == concat_of(ws.map_values(|w: Seq<char>| camel_word(w))),
    decreases ws.len(),
{
    let cs = ws.map_values(|w: Seq<char>| camel_word(w));
    if ws.len() == 0 {
        assert(cs =~= Seq::<Seq<char>>::empty());
    } else {
        lemma_camel_tail_of_concat(ws.drop_last());
        assert(cs.drop_last() =~= ws.drop_last().map_values(|w: Seq<char>| camel_word(w)));
        assert(cs.last() == camel_word(ws.last()));
    }
}

/// Peeling the first word off a separator join.
pub proof fn lemma_join_sep_cons(w: Seq<char>, ws: Seq<Seq<char>>)
    ensures
        join_sep(seq![w] + ws) == if ws.len() == 0 {
            w
        } else {
            w + seq!['_'] + join_sep(ws)
        },
    decreases ws.len(),
{
    if ws.len() == 0 {
        assert(seq![w] + ws =~= seq![w]);
        assert(join_sep(seq![w]) == w);
    } else if ws.len() == 1 {
        assert((seq![w] + ws).drop_last() =~= seq![w]);
        assert((seq![w] + ws).last() == ws[0]);
        assert(join_sep(seq![w]) == w);
        assert(join_sep(seq![w] + ws) == w + seq!['_'] + ws[0]);
        assert(join_sep(ws) == ws[0]);
    } else {
        assert((seq![w] + ws).drop_last() =~= seq![w] + ws.drop_last());
        assert((seq![w] + ws).last() == ws.last());
        lemma_join_sep_cons(w, ws.drop_last());
        assert(join_sep(seq![w] + ws) =~= w + seq!['_'] + join_sep(ws));
    }
}

/// Joining the separator split back with `_` restores the string: the
/// scan's pending span plus the rest of the input.
pub proof fn lemma_join_split_sep_from(s: Seq<char>, last: int, i: int)
    requires
        0 <= last <= i <= s.len(),
    ensures
        join_sep(split_sep_from(s, last, i)) == s.subrange(last, s.len() as int),
    decreases s.len() - i,
{
    if i >= s.len() {
        assert(join_sep(seq![s.subrange(last, s.len() as int)]) == s.subrange(
            last,
            s.len() as int,
        ));
    } else if s[i] == '_' {
        lemma_join_split_sep_from(s, i + 1, i + 1);
        lemma_join_sep_cons(s.subrange(last, i), split_sep_from(s, i + 1, i + 1));
        lemma_split_len_sep(s, i + 1, i + 1);
        assert(s.subrange(last, i) + seq!['_'] + s.subrange(i + 1, s.len() as int) =~= s.subrange(
            last,
            s.len() as int,
        ));
    } else {
        lemma_join_split_sep_from(s, last, i + 1);
    }
}

/// The separator split always yields at least one word.
pub proof fn lemma_split_len_sep(s: Seq<char>, last: int, i: int)
    requires
        0 <= last <= i <= s.len(),
    ensures
        split_sep_from(s, last, i).len() >= 1,
    decreases s.len() - i,
{
    if i >= s.len() {
    } else if s[i] == '_' {
        lemma_split_len_sep(s, i + 1, i + 1);
    } else {
        lemma_split_len_sep(s, last, i + 1);
    }
}

/// Joining the string back with `_` restores it: whole-string form.
pub proof fn lemma_join_split_sep(s: Seq<char>)
    ensures
        join_sep(split_sep(s)) == s,
{
    lemma_join_split_sep_from(s, 0, 0);
    assert(s.subrange(0, s.len() as int) =~= s);
}

/// The uppercase-boundary scan only looks at the input from its current
/// position on: on a concatenation it restarts cleanly in the second part.
pub proof fn lemma_split_upper_shift(a: Seq<char>, b: Seq<char>, last: int, i: int)
    requires
        a.len() <= last <= i <= a.len() + b.len(),
    ensures
        split_upper_from(a + b, last, i) == split_upper_from(b, last - a.len(), i - a.len()),
    decreases a.len() + b.len() - i,
{
    let t = a + b;
    let al = a.len() as int;
    if i >= t.len() {
        assert(t.subrange(last, t.len() as int) =~= b.subrange(last - al, b.len() as int));
    } else {
        assert(t[i] == b[i - al]);
        if is_upper_char(t[i]) {
            lemma_split_upper_shift(a, b, i, i + 1);
            if last < i {
                assert(t.subrange(last, i) =~= b.subrange(last - al, i - al));
            }
        } else {
            lemma_split_upper_shift(a, b, last, i + 1);
        }
    }
}

/// When no ASCII uppercase character remains ahead, the scan emits one
/// final span and stops.
pub proof fn lemma_split_upper_tail(s: Seq<char>, last: int, i: int)
    requires
        0 <= last <= i <= s.len(),
        forall|j: int| i <= j < s.len() ==> !is_upper_char(s[j]),
    ensures
        split_upper_from(s, last, i) == seq![s.subrange(last, s.len() as int)],
    decreases s.len() - i,
{
    if i < s.len() {
        lemma_split_upper_tail(s, last, i + 1);
    }
}

/// Scanning toward the next uppercase character at `m` emits exactly the
/// span that ends there, then continues past `m`.
pub proof fn lemma_split_upper_to_boundary(s: Seq<char>, last: int, i: int, m: int)
    requires
        0 <= last <= i <= m < s.len(),
        last < m,
        is_upper_char(s[m]),
        forall|j: int| i <= j < m ==> !is_upper_char(s[j]),
    ensures
        split_upper_from(s, last, i) == seq![s.subrange(last, m)] + split_upper_from(
            s,
            m,
            m + 1,
        ),
    decreases m - i,
{
    if i == m {
    } else {
        lemma_split_upper_to_boundary(s, last, i + 1, m);
    }
}

/// A non-empty string with no uppercase character after its first
/// position splits into exactly one word: itself.
pub proof fn lemma_split_upper_single(a: Seq<char>)
    requires
        a.len() > 0,
        forall|j: int| 1 <= j < a.len() ==> !is_upper_char(a[j]),
    ensures
        split_upper(a) == seq![a],
{
    if is_upper_char(a[0]) {
        lemma_split_upper_tail(a, 0, 1);
    } else {
        lemma_split_upper_tail(a, 0, 0);
    }
    assert(a.subrange(0, a.len() as int) =~= a);
}

/// A block with no interior uppercase followed by a part that starts
/// uppercase splits into the block and the split of the rest.
pub proof fn lemma_split_upper_block(a: Seq<char>, b: Seq<char>)
    requires
        a.len() > 0,
        forall|j: int| 1 <= j < a.len() ==> !is_upper_char(a[j]),
        b.len() > 0,
        is_upper_char(b[0]),
    ensures
        split_upper(a + b) == seq![a] + split_upper(b),
{
    let t = a + b;
    let m = a.len() as int;
    assert(forall|j: int| 1 <= j < m ==> t[j] == a[j]);
    assert(t[m] == b[0]);
    if is_upper_char(t[0]) {
        lemma_split_upper_to_boundary(t, 0, 1, m);
        assert(split_upper(t) == split_upper_from(t, 0, 1));
    } else {
        lemma_split_upper_to_boundary(t, 0, 0, m);
    }
    lemma_split_upper_shift(a, b, m, m + 1);
    assert(split_upper(b) == split_upper_from(b, 0, 1));
    assert(t.subrange(0, m) =~= a);
}

/// A word shaped as the tokenizer's output and the assemblers' input for
/// every position after the first: non-empty, uppercase first character,
/// no uppercase afterwards.
pub open spec fn cap_word_shape(w: Seq<char>) -> bool {
    w.len() > 0 && is_upper_char(w[0]) && (forall|j: int| 1 <= j < w.len() ==> !is_upper_char(
        w[j],
    ))
}

/// A head block with no interior uppercase followed by a run of
/// `cap_word_shape` words splits into the head and those words.
pub proof fn lemma_split_upper_head_caps(h: Seq<char>, cs: Seq<Seq<char>>)
    requires
        h.len() > 0,
        forall|j: int| 1 <= j < h.len() ==> !is_upper_char(h[j]),
        forall|k: int| 0 <= k < cs.len() ==> cap_word_shape(#[trigger] cs[k]),
    ensures
        split_upper(h + concat_of(cs)) == seq![h] + cs,
    decreases cs.len(),
{
    if cs.len() == 0 {
        assert(concat_of(cs) == Seq::<char>::empty());
        assert(h + concat_of(cs) =~= h);
        lemma_split_upper_single(h);
        assert(seq![h] + cs =~= seq![h]);
    } else {
        let c0 = cs[0];
        let rest = cs.skip(1);
        assert(cs =~= seq![c0] + rest);
        lemma_concat_cons(c0, rest);
        assert(concat_of(cs) == c0 + concat_of(rest));
        lemma_split_upper_head_caps(c0, rest);
        assert(forall|j: int| 1 <= j < c0.len() ==> !is_upper_char(c0[j]));
        let b = concat_of(cs);
        assert(b.len() >= c0.len() > 0) by {
            assert(b == c0 + concat_of(rest));
        }
        assert(b[0] == c0[0]);
        lemma_split_upper_block(h, b);
        assert(c0 + concat_of(rest) == b);
        assert(split_upper(b) == seq![c0] + rest);
        assert(seq![h] + (seq![c0] + rest) =~= seq![h] + cs);
    }
}

/// Shape of the uppercase-boundary split: at least one word comes out;
/// no word has an uppercase character after its first position; every
/// word after the first starts with an uppercase character; and while the
/// pending span starts before the end, no word is empty.
pub proof fn lemma_split_upper_shape(s: Seq<char>, last: int, i: int)
    requires
        0 <= last <= i <= s.len(),
        forall|j: int| last < j < i ==> !is_upper_char(s[j]),
    ensures
        split_upper_from(s, last, i).len() >= 1,
        forall|k: int, j: int|
            0 <= k < split_upper_from(s, last, i).len() && 1 <= j < split_upper_from(
                s,
                last,
                i,
            )[k].len() ==> !is_upper_char(#[trigger] split_upper_from(s, last, i)[k][j]),
        forall|k: int|
            1 <= k < split_upper_from(s, last, i).len() ==> {
                let w = #[trigger] split_upper_from(s, last, i)[k];
                w.len() > 0 && is_upper_char(w[0])
            },
        last < s.len() ==> forall|k: int|
            0 <= k < split_upper_from(s, last, i).len() ==> #[trigger] split_upper_from(
                s,
                last,
                i,
            )[k].len() > 0,
    decreases s.len() - i,
{
    let ws = split_upper_from(s, last, i);
    if i >= s.len() {
        assert(ws == seq![s.subrange(last, s.len() as int)]);
    } else if is_upper_char(s[i]) {
        lemma_split_upper_shape(s, i, i + 1);
        let rest = split_upper_from(s, i, i + 1);
        if last < i {
            let w0 = s.subrange(last, i);
            assert(ws == seq![w0] + rest);
            assert(forall|j: int| 1 <= j < w0.len() ==> !is_upper_char(w0[j]));
            assert(forall|k: int| 0 <= k < rest.len() ==> ws[k + 1] == rest[k]);
            assert(rest[0].len() > 0 && is_upper_char(rest[0][0])) by {
                assert(rest[0] == split_upper_from(s, i, i + 1)[0]);
                lemma_split_upper_first_starts(s, i, i + 1);
            }
        } else {
            assert(ws == rest);
        }
    } else {
        lemma_split_upper_shape(s, last, i + 1);
    }
}

/// The first word of a scan whose pending span starts at an uppercase
/// character is non-empty and starts with that character.
pub proof fn lemma_split_upper_first_starts(s: Seq<char>, last: int, i: int)
    requires
        0 <= last <= i <= s.len(),
        last < s.len(),
        is_upper_char(s[last]),
        forall|j: int| last < j < i ==> !is_upper_char(s[j]),
    ensures
        split_upper_from(s, last, i).len() >= 1,
        split_upper_from(s, last, i)[0].len() > 0,
        split_upper_from(s, last, i)[0][0] == s[last],
    decreases s.len() - i,
{
    if i >= s.len() {
        assert(s.subrange(last, s.len() as int)[0] == s[last]);
    } else if is_upper_char(s[i]) {
        if last < i {
            assert(s.subrange(last, i)[0] == s[last]);
        } else {
            lemma_split_upper_first_starts(s, i, i + 1);
        }
    } else {
        lemma_split_upper_first_starts(s, last, i + 1);
    }
}

/// The uppercase-boundary split never loses or reorders characters:
/// concatenating its words restores the scanned part of the input.
pub proof fn lemma_concat_split_upper_from(s: Seq<char>, last: int, i: int)
    requires
        0 <= last <= i <= s.len(),
    ensures
        concat_of(split_upper_from(s, last, i)) == s.subrange(last, s.len() as int),
    decreases s.len() - i,
{
    if i >= s.len() {
        assert(seq![s.subrange(last, s.len() as int)].drop_last() =~= Seq::<Seq<char>>::empty());
        assert(concat_of(Seq::<Seq<char>>::empty()) == Seq::<char>::empty());
        assert(Seq::<char>::empty() + s.subrange(last, s.len() as int) =~= s.subrange(
            last,
            s.len() as int,
        ));
    } else if is_upper_char(s[i]) {
        lemma_concat_split_upper_from(s, i, i + 1);
        if last < i {
            lemma_concat_cons(s.subrange(last, i), split_upper_from(s, i, i + 1));
            assert(s.subrange(last, i) + s.subrange(i, s.len() as int) =~= s.subrange(
                last,
                s.len() as int,
            ));
        } else {
            assert(s.subrange(i, s.len() as int) == s.subrange(last, s.len() as int));
        }
    } else {
        lemma_concat_split_upper_from(s, last, i + 1);
    }
}

/// Whole-string form: the words of the uppercase-boundary split
/// concatenate back to the input.
pub proof fn lemma_concat_split_upper(s: Seq<char>)
    ensures
        concat_of(split_upper(s)) == s,
{
    lemma_concat_split_upper_from(s, 0, 0);
    assert(s.subrange(0, s.len() as int) =~= s);
}

/// Snake assembly of the separator split lowercases the string in place:
/// every span is lowercased and every `_` survives, `_` itself being
/// unchanged by the case map.
pub proof fn lemma_snake_split_lower_from(s: Seq<char>, last: int, i: int)
    requires
        0 <= last <= i <= s.len(),
    ensures
        join_sep(
            split_sep_from(s, last, i).map_values(|w: Seq<char>| lower_word(w)),
        ) == lower_word(s.subrange(last, s.len() as int)),
    decreases s.len() - i,
{
    if i >= s.len() {
        assert(split_sep_from(s, last, i).map_values(|w: Seq<char>| lower_word(w)) =~= seq![
            lower_word(s.subrange(last, s.len() as int)),
        ]);
    } else if s[i] == '_' {
        let a = s.subrange(last, i);
        let rest = split_sep_from(s, i + 1, i + 1);
        let mapped_rest = rest.map_values(|w: Seq<char>| lower_word(w));
        assert((seq![a] + rest).map_values(|w: Seq<char>| lower_word(w)) =~= seq![lower_word(a)]
            + mapped_rest);
        lemma_split_len_sep(s, i + 1, i + 1);
        lemma_join_sep_cons(lower_word(a), mapped_rest);
        lemma_snake_split_lower_from(s, i + 1, i + 1);
        assert(lower_word(a) + seq!['_'] + lower_word(s.subrange(i + 1, s.len() as int))
            =~= lower_word(s.subrange(last, s.len() as int)));
    } else {
        lemma_snake_split_lower_from(s, last, i + 1);
    }
}

/// ScreamingSnake assembly of the separator split uppercases the string
/// in place, in the same way.
pub proof fn lemma_screaming_split_upper_from(s: Seq<char>, last: int, i: int)
    requires
        0 <= last <= i <= s.len(),
    ensures
        join_sep(
            split_sep_from(s, last, i).map_values(|w: Seq<char>| upper_word(w)),
        ) == upper_word(s.subrange(last, s.len() as int)),
    decreases s.len() - i,
{
    if i >= s.len() {
        assert(split_sep_from(s, last, i).map_values(|w: Seq<char>| upper_word(w)) =~= seq![
            upper_word(s.subrange(last, s.len() as int)),
        ]);
    } else if s[i] == '_' {
        let a = s.subrange(last, i);
        let rest = split_sep_from(s, i + 1, i + 1);
        let mapped_rest = rest.map_values(|w: Seq<char>| upper_word(w));
        assert((seq![a] + rest).map_values(|w: Seq<char>| upper_word(w)) =~= seq![upper_word(a)]
            + mapped_rest);
        lemma_split_len_sep(s, i + 1, i + 1);
        lemma_join_sep_cons(upper_word(a), mapped_rest);
        lemma_screaming_split_upper_from(s, i + 1, i + 1);
        assert(upper_word(a) + seq!['_'] + upper_word(s.subrange(i + 1, s.len() as int))
            =~= upper_word(s.subrange(last, s.len() as int)));
    } else {
        lemma_screaming_split_upper_from(s, last, i + 1);
    }
}

/// The separator scan only looks at the input from its current position
/// on: on a concatenation it restarts cleanly in the second part.
pub proof fn lemma_split_sep_shift(a: Seq<char>, b: Seq<char>, last: int, i: int)
    requires
        a.len() <= last <= i <= a.len() + b.len(),
    ensures
        split_sep_from(a + b, last, i) == split_sep_from(b, last - a.len(), i - a.len()),
    decreases a.len() + b.len() - i,
{
    let t = a + b;
    let al = a.len() as int;
    if i >= t.len() {
        assert(t.subrange(last, t.len() as int) =~= b.subrange(last - al, b.len() as int));
    } else {
        assert(t[i] == b[i - al]);
        if t[i] == '_' {
            lemma_split_sep_shift(a, b, i + 1, i + 1);
            assert(t.subrange(last, i) =~= b.subrange(last - al, i - al));
        } else {
            lemma_split_sep_shift(a, b, last, i + 1);
        }
    }
}

/// When no `_` remains ahead, the separator scan emits one final span and
/// stops.
pub proof fn lemma_split_sep_nosep(s: Seq<char>, last: int, i: int)
    requires
        0 <= last <= i <= s.len(),
        forall|j: int| i <= j < s.len() ==> s[j] != '_',
    ensures
        split_sep_from(s, last, i) == seq![s.subrange(last, s.len() as int)],
    decreases s.len() - i,
{
    if i < s.len() {
        lemma_split_sep_nosep(s, last, i + 1);
    }
}

/// Scanning toward the next `_` at `m` emits exactly the span that ends
/// there, then continues past it.
pub proof fn lemma_split_sep_to_boundary(s: Seq<char>, last: int, i: int, m: int)
    requires
        0 <= last <= i <= m < s.len(),
        s[m] == '_',
        forall|j: int| i <= j < m ==> s[j] != '_',
    ensures
        split_sep_from(s, last, i) == seq![s.subrange(last, m)] + split_sep_from(
            s,
            m + 1,
            m + 1,
        ),
    decreases m - i,
{
    if i < m {
        lemma_split_sep_to_boundary(s, last, i + 1, m);
    }
}

/// Splitting a separator join on `_` recovers the words, provided none of
/// them holds a `_` of its own.
pub proof fn lemma_split_sep_join(ls: Seq<Seq<char>>)
    requires
        ls.len() >= 1,
        forall|k: int, j: int|
            0 <= k < ls.len() && 0 <= j < ls[k].len() ==> #[trigger] ls[k][j] != '_',
    ensures
        split_sep(join_sep(ls)) == ls,
    decreases ls.len(),
{
    if ls.len() == 1 {
        assert(join_sep(ls) == ls[0]);
        lemma_split_sep_nosep(ls[0], 0, 0);
        assert(ls[0].subrange(0, ls[0].len() as int) =~= ls[0]);
        assert(seq![ls[0]] =~= ls);
    } else {
        let w = ls[0];
        let rest = ls.skip(1);
        assert(ls =~= seq![w] + rest);
        lemma_join_sep_cons(w, rest);
        let t = join_sep(ls);
        assert(t == w + seq!['_'] + join_sep(rest));
        let m = w.len() as int;
        assert(t.len() == m + 1 + join_sep(rest).len());
        assert(forall|j: int| 0 <= j < m ==> t[j] == w[j]);
        assert(t[m] == '_');
        lemma_split_sep_to_boundary(t, 0, 0, m);
        assert(t.subrange(0, m) =~= w);
        lemma_split_sep_shift(w + seq!['_'], join_sep(rest), m + 1, m + 1);
        assert((w + seq!['_']) + join_sep(rest) =~= t);
        assert(forall|k: int, j: int|
            0 <= k < rest.len() && 0 <= j < rest[k].len() ==> #[trigger] rest[k][j] != '_');
        lemma_split_sep_join(rest);
        assert(split_sep(t) == seq![w] + rest);
    }
}

/// A character other than `c` found nowhere in the input is found nowhere
/// in the words of the uppercase-boundary split.
pub proof fn lemma_split_upper_no_char(s: Seq<char>, last: int, i: int, c: char)
    requires
        0 <= last <= i <= s.len(),
        forall|p: int| 0 <= p < s.len() ==> s[p] != c,
    ensures
        forall|k: int, j: int|
            0 <= k < split_upper_from(s, last, i).len() && 0 <= j < split_upper_from(
                s,
                last,
                i,
            )[k].len() ==> #[trigger] split_upper_from(s, last, i)[k][j] != c,
    decreases s.len() - i,
{
    let ws = split_upper_from(s, last, i);
    if i >= s.len() {
        assert forall|k: int, j: int|
            0 <= k < ws.len() && 0 <= j < ws[k].len() implies #[trigger] ws[k][j] != c by {
            assert(ws[k] == s.subrange(last, s.len() as int));
            assert(ws[k][j] == s[last + j]);
        }
    } else if is_upper_char(s[i]) {
        lemma_split_upper_no_char(s, i, i + 1, c);
        let rest = split_upper_from(s, i, i + 1);
        if last < i {
            assert(ws == seq![s.subrange(last, i)] + rest);
            assert forall|k: int, j: int|
                0 <= k < ws.len() && 0 <= j < ws[k].len() implies #[trigger] ws[k][j] != c by {
                if k == 0 {
                    assert(ws[0] == s.subrange(last, i));
                    assert(ws[0][j] == s[last + j]);
                } else {
                    assert(ws[k] == rest[k - 1]);
                    assert(rest[k - 1][j] != c);
                }
            }
        } else {
            assert forall|k: int, j: int|
                0 <= k < ws.len() && 0 <= j < ws[k].len() implies #[trigger] ws[k][j] != c by {
                assert(rest[k][j] != c);
            }
        }
    } else {
        let rest = split_upper_from(s, last, i + 1);
        lemma_split_upper_no_char(s, last, i + 1, c);
        assert forall|k: int, j: int|
            0 <= k < ws.len() && 0 <= j < ws[k].len() implies #[trigger] ws[k][j] != c by {
            assert(rest[k][j] != c);
        }
    }
}

/// One step of Pascal assembly: taking one more word appends its
/// rendering.
pub proof fn lemma_pascal_of_take(ws: Seq<Seq<char>>, k: int)
    requires
        0 <= k < ws.len(),
    ensures
        pascal_of(ws.take(k + 1)) == pascal_of(ws.take(k)) + pascal_word(ws[k]),
{
    assert(ws.take(k + 1).drop_last() =~= ws.take(k));
    assert(ws.take(k + 1).last() == ws[k]);
}

/// One step of Camel assembly: the first word is lowercased whole, each
/// later word appends its `camel_word` rendering.
pub proof fn lemma_camel_of_take(ws: Seq<Seq<char>>, k: int)
    requires
        0 <= k < ws.len(),
    ensures
        k == 0 ==> camel_of(ws.take(1)) == lower_word(ws[0]),
        k > 0 ==> camel_of(ws.take(k + 1)) == camel_of(ws.take(k)) + camel_word(ws[k]),
{
    if k == 0 {
        assert(ws.take(1)[0] == ws[0]);
        assert(ws.take(1).skip(1) =~= Seq::<Seq<char>>::empty());
        assert(camel_of(ws.take(1)) =~= lower_word(ws[0]));
    } else {
        assert(ws.take(k + 1).skip(1).drop_last() =~= ws.take(k).skip(1));
        assert(ws.take(k + 1).skip(1).last() == ws[k]);
        assert(ws.take(k + 1)[0] == ws[0]);
        assert(ws.take(k)[0] == ws[0]);
        assert(camel_of(ws.take(k + 1)) =~= camel_of(ws.take(k)) + camel_word(ws[k]));
    }
}

/// One step of a separator join: taking one more word appends a `_` (after
/// the first word) and the word.
pub proof fn lemma_join_sep_take(ws: Seq<Seq<char>>, k: int)
    requires
        0 <= k < ws.len(),
    ensures
        k == 0 ==> join_sep(ws.take(1)) == ws[0],
        k > 0 ==> join_sep(ws.take(k + 1)) == join_sep(ws.take(k)) + seq!['_'] + ws[k],
{
    if k == 0 {
        assert(ws.take(1)[0] == ws[0]);
    } else {
        assert(ws.take(k + 1).drop_last() =~= ws.take(k));
        assert(ws.take(k + 1).last() == ws[k]);
    }
}

} // verus!
