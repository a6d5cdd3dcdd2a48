//! General laws of the converter, proved once and for all inputs:
//! conversion of the empty line, idempotence of same-convention
//! conversion, and losslessness of round trips.

use vstd::prelude::*;
use crate::casing::{
    is_lower_char, is_upper_char, lemma_char_case, lemma_lower_word_id, lemma_lower_word_idem,
    lemma_upper_word_idem, lower_char, lower_word, upper_char, upper_word,
};
use crate::convention::{spec_convert, spec_tokenize, NameConvention};
use crate::model::{
    camel_of, camel_tail_of, camel_word, cap_word_shape, concat_of, join_sep,
    lemma_camel_tail_of_concat, lemma_concat_cons, lemma_concat_split_upper,
    lemma_join_split_sep, lemma_pascal_of_concat, lemma_screaming_split_upper_from,
    lemma_snake_split_lower_from, lemma_split_len_sep, lemma_split_sep_join,
    lemma_split_upper_head_caps, lemma_split_upper_no_char, lemma_split_upper_shape,
    pascal_of, pascal_word, snake_of, split_sep, split_upper, screaming_of,
};

verus! {

/// An empty input line converts to an empty output line, whatever the
/// conventions: both tokenizers read it as one empty word, and every
/// assembler renders that as the empty string.
pub proof fn lemma_empty_input(from: NameConvention, to: NameConvention)
    requires
        !(from is KebabCase),
        !(to is KebabCase),
    ensures
        spec_convert(from, Seq::<char>::empty(), to) == Seq::<char>::empty(),
{
    let e = Seq::<char>::empty();
    assert(e.subrange(0, 0) =~= e);
    assert(split_upper(e) == seq![e]);
    assert(split_sep(e) == seq![e]);
    let ws = seq![e];
    assert(ws.drop_last() =~= Seq::<Seq<char>>::empty());
    assert(pascal_of(Seq::<Seq<char>>::empty()) == Seq::<char>::empty());
    assert(pascal_of(ws) =~= e);
    assert(ws.skip(1) =~= Seq::<Seq<char>>::empty());
    assert(camel_tail_of(Seq::<Seq<char>>::empty()) == Seq::<char>::empty());
    assert(lower_word(e) =~= e);
    assert(camel_of(ws) =~= e);
    let ls = ws.map_values(|w: Seq<char>| lower_word(w));
    assert(ls.len() == 1 && ls[0] == lower_word(e));
    assert(join_sep(ls) == ls[0]);
    assert(snake_of(ws) =~= e);
    let us = ws.map_values(|w: Seq<char>| upper_word(w));
    assert(us.len() == 1 && us[0] == upper_word(e));
    assert(join_sep(us) == us[0]);
    assert(upper_word(e) =~= e);
    assert(screaming_of(ws) =~= e);
}

/// Snake to Snake conversion canonicalizes: it lowercases the line in
/// place, keeping every `_`.
pub proof fn lemma_snake_convert_is_lower(s: Seq<char>)
    ensures
        spec_convert(NameConvention::SnakeCase, s, NameConvention::SnakeCase) == lower_word(s),
{
    lemma_snake_split_lower_from(s, 0, 0);
    assert(s.subrange(0, s.len() as int) =~= s);
}

/// ScreamingSnake to ScreamingSnake conversion canonicalizes: it
/// uppercases the line in place, keeping every `_`.
pub proof fn lemma_screaming_convert_is_upper(s: Seq<char>)
    ensures
        spec_convert(
            NameConvention::ScreammingSnakeCase,
            s,
            NameConvention::ScreammingSnakeCase,
        ) == upper_word(s),
{
    lemma_screaming_split_upper_from(s, 0, 0);
    assert(s.subrange(0, s.len() as int) =~= s);
}

/// Converting Snake to Snake twice is the same as converting once: the
/// first pass already yields the canonical, fully lowercased form.
pub proof fn lemma_idempotent_snake(s: Seq<char>)
    ensures
        spec_convert(
            NameConvention::SnakeCase,
            spec_convert(NameConvention::SnakeCase, s, NameConvention::SnakeCase),
            NameConvention::SnakeCase,
        ) == spec_convert(NameConvention::SnakeCase, s, NameConvention::SnakeCase),
{
    lemma_snake_convert_is_lower(s);
    lemma_snake_convert_is_lower(lower_word(s));
    lemma_lower_word_idem(s);
}

/// Converting ScreamingSnake to ScreamingSnake twice is the same as
/// converting once: the first pass already yields the canonical, fully
/// uppercased form.
pub proof fn lemma_idempotent_screaming(s: Seq<char>)
    ensures
        spec_convert(
            NameConvention::ScreammingSnakeCase,
            spec_convert(
                NameConvention::ScreammingSnakeCase,
                s,
                NameConvention::ScreammingSnakeCase,
            ),
            NameConvention::ScreammingSnakeCase,
        ) == spec_convert(
            NameConvention::ScreammingSnakeCase,
            s,
            NameConvention::ScreammingSnakeCase,
        ),
{
    lemma_screaming_convert_is_upper(s);
    lemma_screaming_convert_is_upper(upper_word(s));
    lemma_upper_word_idem(s);
}

/// A word with no internal case ambiguity: non-empty, beginning with an
/// ASCII lowercase letter, holding no ASCII uppercase letter.
pub open spec fn plain_word(w: Seq<char>) -> bool {
    w.len() > 0 && is_lower_char(w[0]) && (forall|i: int| 0 <= i < w.len() ==> !is_upper_char(
        w[i],
    ))
}

/// The Snake tokenization of `s` is lossless: every word it yields is a
/// `plain_word`, so a later uppercase-boundary tokenization recovers the
/// words exactly.
pub open spec fn snake_lossless(s: Seq<char>) -> bool {
    forall|k: int| 0 <= k < split_sep(s).len() ==> plain_word(#[trigger] split_sep(s)[k])
}

/// Round trip: a Snake line whose words have no internal case ambiguity
/// converts to Camel and back to Snake unchanged.
pub proof fn lemma_round_trip_snake_camel(s: Seq<char>)
    requires
        snake_lossless(s),
    ensures
        spec_convert(
            NameConvention::CamelCase,
            spec_convert(NameConvention::SnakeCase, s, NameConvention::CamelCase),
            NameConvention::SnakeCase,
        ) == s,
{
    let ws = split_sep(s);
    lemma_split_len_sep(s, 0, 0);
    let h = ws[0];
    assert(plain_word(h));
    lemma_lower_word_id(h);
    let tail = ws.skip(1);
    lemma_camel_tail_of_concat(tail);
    let cs = tail.map_values(|w: Seq<char>| camel_word(w));
    let t = camel_of(ws);
    assert(t == h + concat_of(cs));
    assert forall|k: int| 0 <= k < cs.len() implies cap_word_shape(#[trigger] cs[k]) by {
        let w = tail[k];
        assert(w == ws[k + 1]);
        assert(plain_word(w));
        lemma_char_case(w[0]);
        assert(cs[k] == camel_word(w));
        assert(cs[k].len() == w.len());
        assert(cs[k][0] == upper_char(w[0]));
        assert(forall|j: int| 1 <= j < cs[k].len() ==> cs[k][j] == w[j]);
    }
    lemma_split_upper_head_caps(h, cs);
    let ws2 = seq![h] + cs;
    assert(split_upper(t) == ws2);
    assert(ws2.map_values(|w: Seq<char>| lower_word(w)) =~= ws) by {
        assert(ws2.len() == ws.len());
        assert(ws2[0] == h);
        assert(lower_word(h) == h);
        assert forall|k: int| 1 <= k < ws2.len() implies lower_word(#[trigger] ws2[k]) == ws[k] by {
            let w = ws[k];
            assert(plain_word(w));
            assert(ws2[k] == cs[k - 1]);
            assert(cs[k - 1] == camel_word(tail[k - 1]));
            assert(tail[k - 1] == w);
            assert(lower_word(camel_word(w)) =~= w) by {
                assert(camel_word(w).len() == w.len());
                assert(camel_word(w)[0] == upper_char(w[0]));
                lemma_char_case(w[0]);
                assert(lower_char(upper_char(w[0])) == w[0]);
                assert forall|j: int| 1 <= j < w.len() implies lower_char(
                    #[trigger] camel_word(w)[j],
                ) == w[j] by {
                    assert(camel_word(w)[j] == w[j]);
                    lemma_char_case(w[j]);
                }
            }
        }
    }
    assert(snake_of(ws2) == join_sep(ws));
    lemma_join_split_sep(s);
}

/// Round trip: a Snake line whose words have no internal case ambiguity
/// converts to Pascal and back to Snake unchanged.
pub proof fn lemma_round_trip_snake_pascal(s: Seq<char>)
    requires
        snake_lossless(s),
    ensures
        spec_convert(
            NameConvention::PascalCase,
            spec_convert(NameConvention::SnakeCase, s, NameConvention::PascalCase),
            NameConvention::SnakeCase,
        ) == s,
{
    let ws = split_sep(s);
    lemma_split_len_sep(s, 0, 0);
    lemma_pascal_of_concat(ws);
    let cs = ws.map_values(|w: Seq<char>| pascal_word(w));
    let t = pascal_of(ws);
    assert(t == concat_of(cs));
    assert forall|k: int| 0 <= k < cs.len() implies cap_word_shape(#[trigger] cs[k]) by {
        let w = ws[k];
        assert(plain_word(w));
        lemma_char_case(w[0]);
        assert(cs[k] == pascal_word(w));
        assert(cs[k].len() == 1 + lower_word(w.skip(1)).len());
        assert(cs[k][0] == upper_char(w[0]));
        assert forall|j: int| 1 <= j < cs[k].len() implies !is_upper_char(
            #[trigger] cs[k][j],
        ) by {
            assert(cs[k][j] == lower_word(w.skip(1))[j - 1]);
            assert(lower_word(w.skip(1))[j - 1] == lower_char(w[j]));
            lemma_char_case(w[j]);
        }
    }
    assert(cs.len() >= 1);
    assert(cs =~= seq![cs[0]] + cs.skip(1));
    lemma_concat_cons(cs[0], cs.skip(1));
    assert(t == cs[0] + concat_of(cs.skip(1)));
    lemma_split_upper_head_caps(cs[0], cs.skip(1));
    assert(split_upper(t) == seq![cs[0]] + cs.skip(1));
    assert(split_upper(t) == cs);
    assert(cs.map_values(|w: Seq<char>| lower_word(w)) =~= ws) by {
        assert forall|k: int| 0 <= k < cs.len() implies lower_word(#[trigger] cs[k]) == ws[k] by {
            let w = ws[k];
            assert(plain_word(w));
            assert(cs[k] == pascal_word(w));
            assert(lower_word(pascal_word(w)) =~= w) by {
                assert(pascal_word(w).len() == w.len());
                assert(pascal_word(w)[0] == upper_char(w[0]));
                lemma_char_case(w[0]);
                assert(lower_char(upper_char(w[0])) == w[0]);
                assert forall|j: int| 1 <= j < w.len() implies lower_char(
                    #[trigger] pascal_word(w)[j],
                ) == w[j] by {
                    assert(pascal_word(w)[j] == lower_char(w[j]));
                    lemma_char_case(w[j]);
                }
            }
        }
    }
    assert(snake_of(cs) == join_sep(ws));
    lemma_join_split_sep(s);
}

/// The ScreamingSnake tokenization of `s` is lossless: every word it
/// yields is non-empty, starts with an ASCII uppercase letter, and holds
/// no ASCII lowercase letter.
pub open spec fn screaming_lossless(s: Seq<char>) -> bool {
    forall|k: int|
        0 <= k < split_sep(s).len() ==> {
            let w = #[trigger] split_sep(s)[k];
            w.len() > 0 && is_upper_char(w[0]) && (forall|j: int|
                0 <= j < w.len() ==> !is_lower_char(w[j]))
        }
}

/// Round trip: a ScreamingSnake line whose words have no internal case
/// ambiguity converts to Pascal and back to ScreamingSnake unchanged.
pub proof fn lemma_round_trip_screaming_pascal(s: Seq<char>)
    requires
        screaming_lossless(s),
    ensures
        spec_convert(
            NameConvention::PascalCase,
            spec_convert(NameConvention::ScreammingSnakeCase, s, NameConvention::PascalCase),
            NameConvention::ScreammingSnakeCase,
        ) == s,
{
    let ws = split_sep(s);
    lemma_split_len_sep(s, 0, 0);
    lemma_pascal_of_concat(ws);
    let cs = ws.map_values(|w: Seq<char>| pascal_word(w));
    let t = pascal_of(ws);
    assert(t == concat_of(cs));
    assert forall|k: int| 0 <= k < cs.len() implies cap_word_shape(#[trigger] cs[k]) by {
        let w = ws[k];
        assert(w.len() > 0 && is_upper_char(w[0]));
        lemma_char_case(w[0]);
        assert(cs[k] == pascal_word(w));
        assert(cs[k][0] == upper_char(w[0]));
        assert forall|j: int| 1 <= j < cs[k].len() implies !is_upper_char(
            #[trigger] cs[k][j],
        ) by {
            assert(cs[k][j] == lower_char(w[j]));
            lemma_char_case(w[j]);
        }
    }
    assert(cs.len() >= 1);
    assert(cs =~= seq![cs[0]] + cs.skip(1));
    lemma_concat_cons(cs[0], cs.skip(1));
    assert(t == cs[0] + concat_of(cs.skip(1)));
    lemma_split_upper_head_caps(cs[0], cs.skip(1));
    assert(split_upper(t) == seq![cs[0]] + cs.skip(1));
    assert(split_upper(t) == cs);
    assert(cs.map_values(|w: Seq<char>| upper_word(w)) =~= ws) by {
        assert forall|k: int| 0 <= k < cs.len() implies upper_word(#[trigger] cs[k]) == ws[k] by {
            let w = ws[k];
            assert(w.len() > 0 && is_upper_char(w[0]));
            assert(cs[k] == pascal_word(w));
            assert(upper_word(pascal_word(w)) =~= w) by {
                assert(pascal_word(w).len() == w.len());
                assert(pascal_word(w)[0] == upper_char(w[0]));
                lemma_char_case(w[0]);
                assert(upper_char(upper_char(w[0])) == w[0]);
                assert forall|j: int| 1 <= j < w.len() implies upper_char(
                    #[trigger] pascal_word(w)[j],
                ) == w[j] by {
                    assert(pascal_word(w)[j] == lower_char(w[j]));
                    assert(!is_lower_char(w[j]));
                    lemma_char_case(w[j]);
                }
            }
        }
    }
    assert(screaming_of(cs) == join_sep(ws));
    lemma_join_split_sep(s);
}

/// Round trip: a Camel line with no `_` of its own, not starting with an
/// ASCII uppercase letter, converts to Snake and back to Camel unchanged.
pub proof fn lemma_round_trip_camel_snake(s: Seq<char>)
    requires
        forall|p: int| 0 <= p < s.len() ==> s[p] != '_',
        s.len() > 0 ==> !is_upper_char(s[0]),
    ensures
        spec_convert(
            NameConvention::SnakeCase,
            spec_convert(NameConvention::CamelCase, s, NameConvention::SnakeCase),
            NameConvention::CamelCase,
        ) == s,
{
    if s.len() == 0 {
        lemma_empty_input(NameConvention::CamelCase, NameConvention::SnakeCase);
        lemma_empty_input(NameConvention::SnakeCase, NameConvention::CamelCase);
        assert(s =~= Seq::<char>::empty());
    } else {
        let ws = split_upper(s);
        lemma_split_upper_shape(s, 0, 0);
        lemma_concat_split_upper(s);
        assert(ws =~= seq![ws[0]] + ws.skip(1));
        lemma_concat_cons(ws[0], ws.skip(1));
        assert(s == ws[0] + concat_of(ws.skip(1)));
        assert(ws[0].len() > 0);
        assert(ws[0][0] == s[0]);
        let ls = ws.map_values(|w: Seq<char>| lower_word(w));
        let t = snake_of(ws);
        assert(t == join_sep(ls));
        lemma_split_upper_no_char(s, 0, 0, '_');
        assert forall|k: int, j: int|
            0 <= k < ls.len() && 0 <= j < ls[k].len() implies #[trigger] ls[k][j] != '_' by {
            assert(ls[k][j] == lower_char(ws[k][j]));
            assert(ws[k][j] != '_');
            lemma_char_case(ws[k][j]);
        }
        assert(ls.len() == ws.len() >= 1);
        lemma_split_sep_join(ls);
        assert(split_sep(t) == ls);
        assert(camel_of(ls) == lower_word(ls[0]) + camel_tail_of(ls.skip(1)));
        assert(lower_word(ls[0]) =~= ws[0]) by {
            assert(ls[0] == lower_word(ws[0]));
            assert forall|j: int| 0 <= j < ws[0].len() implies lower_char(
                lower_word(ws[0])[j],
            ) == ws[0][j] by {
                assert(!is_upper_char(ws[0][j]));
                lemma_char_case(ws[0][j]);
            }
        }
        lemma_camel_tail_of_concat(ls.skip(1));
        assert(ls.skip(1).map_values(|w: Seq<char>| camel_word(w)) =~= ws.skip(1)) by {
            assert forall|k: int| 0 <= k < ls.skip(1).len() implies camel_word(
                #[trigger] ls.skip(1)[k],
            ) == ws.skip(1)[k] by {
                let w = ws[k + 1];
                assert(w.len() > 0 && is_upper_char(w[0]));
                assert(forall|j: int| 1 <= j < w.len() ==> !is_upper_char(w[j]));
                assert(ls.skip(1)[k] == lower_word(w));
                let lw = lower_word(w);
                assert(camel_word(lw) =~= w) by {
                    assert(lw.len() == w.len());
                    assert(lw[0] == lower_char(w[0]));
                    lemma_char_case(w[0]);
                    assert(upper_char(lower_char(w[0])) == w[0]);
                    assert(camel_word(lw)[0] == upper_char(lw[0]));
                    assert forall|j: int| 1 <= j < w.len() implies camel_word(lw)[j] == w[
                        j
                    ] by {
                        assert(camel_word(lw)[j] == lw[j]);
                        assert(lw[j] == lower_char(w[j]));
                        lemma_char_case(w[j]);
                    }
                }
            }
        }
        assert(camel_of(ls) == ws[0] + concat_of(ws.skip(1)));
    }
}

/// Converting Pascal to Pascal twice is the same as converting once: the
/// first pass yields a form the assembler's casing rules already fix.
pub proof fn lemma_idempotent_pascal(s: Seq<char>)
    ensures
        spec_convert(
            NameConvention::PascalCase,
            spec_convert(NameConvention::PascalCase, s, NameConvention::PascalCase),
            NameConvention::PascalCase,
        ) == spec_convert(NameConvention::PascalCase, s, NameConvention::PascalCase),
{
    if s.len() == 0 {
        lemma_empty_input(NameConvention::PascalCase, NameConvention::PascalCase);
        assert(s =~= Seq::<char>::empty());
    } else {
        let ws = split_upper(s);
        lemma_split_upper_shape(s, 0, 0);
        lemma_pascal_of_concat(ws);
        let cs = ws.map_values(|w: Seq<char>| pascal_word(w));
        let t = pascal_of(ws);
        assert(t == concat_of(cs));
        assert(cs.len() == ws.len() >= 1);
        assert forall|k: int| 0 <= k < cs.len() implies (#[trigger] cs[k]).len() > 0 && (
        forall|j: int| 1 <= j < cs[k].len() ==> !is_upper_char(#[trigger] cs[k][j])) by {
            let w = ws[k];
            assert(w.len() > 0);
            assert(cs[k] == pascal_word(w));
            assert forall|j: int| 1 <= j < cs[k].len() implies !is_upper_char(
                #[trigger] cs[k][j],
            ) by {
                assert(cs[k][j] == lower_word(w.skip(1))[j - 1]);
                assert(lower_word(w.skip(1))[j - 1] == lower_char(w[j]));
                lemma_char_case(w[j]);
            }
        }
        assert forall|k: int| 1 <= k < cs.len() implies is_upper_char(#[trigger] cs[k][0]) by {
            let w = ws[k];
            assert(w.len() > 0 && is_upper_char(w[0]));
            assert(cs[k] == pascal_word(w));
            assert(cs[k][0] == upper_char(w[0]));
            lemma_char_case(w[0]);
        }
        assert(cs =~= seq![cs[0]] + cs.skip(1));
        lemma_concat_cons(cs[0], cs.skip(1));
        assert(t == cs[0] + concat_of(cs.skip(1)));
        lemma_split_upper_head_caps(cs[0], cs.skip(1));
        assert(split_upper(t) == seq![cs[0]] + cs.skip(1));
        assert(split_upper(t) == cs);
        lemma_pascal_of_concat(cs);
        assert(cs.map_values(|w: Seq<char>| pascal_word(w)) =~= cs) by {
            assert forall|k: int| 0 <= k < cs.len() implies pascal_word(#[trigger] cs[k])
                == cs[k] by {
                let w = ws[k];
                assert(cs[k] == pascal_word(w));
                assert(pascal_word(pascal_word(w)) =~= pascal_word(w)) by {
                    let p = pascal_word(w);
                    assert(p.len() == w.len());
                    assert(p[0] == upper_char(w[0]));
                    lemma_char_case(w[0]);
                    assert(upper_char(upper_char(w[0])) == upper_char(w[0]));
                    assert(p.skip(1) =~= lower_word(w.skip(1)));
                    lemma_lower_word_idem(w.skip(1));
                    assert(pascal_word(p).len() == p.len());
                    assert(pascal_word(p)[0] == upper_char(p[0]));
                    assert(pascal_word(p).skip(1) =~= lower_word(p.skip(1)));
                }
            }
        }
        assert(pascal_of(cs) == concat_of(cs));
    }
}

/// Converting Camel to Camel twice is the same as converting once: the
/// first pass yields a form the assembler's casing rules already fix.
pub proof fn lemma_idempotent_camel(s: Seq<char>)
    ensures
        spec_convert(
            NameConvention::CamelCase,
            spec_convert(NameConvention::CamelCase, s, NameConvention::CamelCase),
            NameConvention::CamelCase,
        ) == spec_convert(NameConvention::CamelCase, s, NameConvention::CamelCase),
{
    if s.len() == 0 {
        lemma_empty_input(NameConvention::CamelCase, NameConvention::CamelCase);
        assert(s =~= Seq::<char>::empty());
    } else {
        let ws = split_upper(s);
        lemma_split_upper_shape(s, 0, 0);
        let h = lower_word(ws[0]);
        lemma_lower_word_idem(ws[0]);
        assert(h.len() == ws[0].len() > 0);
        let tail = ws.skip(1);
        lemma_camel_tail_of_concat(tail);
        let cs = tail.map_values(|w: Seq<char>| camel_word(w));
        let t = camel_of(ws);
        assert(t == h + concat_of(cs));
        assert forall|k: int| 0 <= k < cs.len() implies cap_word_shape(#[trigger] cs[k]) by {
            let w = tail[k];
            assert(w == ws[k + 1]);
            assert(w.len() > 0 && is_upper_char(w[0]));
            assert(forall|j: int| 1 <= j < w.len() ==> !is_upper_char(w[j]));
            lemma_char_case(w[0]);
            assert(cs[k] == camel_word(w));
            assert(cs[k].len() == w.len());
            assert(cs[k][0] == upper_char(w[0]));
            assert(forall|j: int| 1 <= j < cs[k].len() ==> cs[k][j] == w[j]);
        }
        lemma_split_upper_head_caps(h, cs);
        let ws2 = seq![h] + cs;
        assert(split_upper(t) == ws2);
        assert(ws2.len() > 0);
        assert(ws2[0] == h);
        assert(camel_of(ws2) == lower_word(h) + camel_tail_of(ws2.skip(1)));
        assert(lower_word(h) == h);
        assert(ws2.skip(1) =~= cs);
        lemma_camel_tail_of_concat(cs);
        assert(cs.map_values(|w: Seq<char>| camel_word(w)) =~= cs) by {
            assert forall|k: int| 0 <= k < cs.len() implies camel_word(#[trigger] cs[k])
                == cs[k] by {
                let w = tail[k];
                assert(cs[k] == camel_word(w));
                assert(w == ws[k + 1]);
                assert(w.len() > 0 && is_upper_char(w[0]));
                assert(camel_word(camel_word(w)) =~= camel_word(w)) by {
                    let c = camel_word(w);
                    assert(c.len() == w.len());
                    assert(c[0] == upper_char(w[0]));
                    lemma_char_case(w[0]);
                    assert(upper_char(upper_char(w[0])) == upper_char(w[0]));
                    assert(camel_word(c).len() == c.len());
                    assert(camel_word(c)[0] == upper_char(c[0]));
                    assert(camel_word(c).skip(1) =~= c.skip(1));
                }
            }
        }
        assert(camel_tail_of(cs) == concat_of(cs));
        assert(camel_of(ws2) == t);
    }
}

/// Tokenization never loses or reorders characters: the words of an
/// uppercase-boundary split concatenate back to the input, and the words
/// of a separator split join back to it with single `_` separators.
pub proof fn lemma_tokenize_preserves_content(c: NameConvention, s: Seq<char>)
    requires
        !(c is KebabCase),
    ensures
        (c is PascalCase || c is CamelCase) ==> concat_of(spec_tokenize(c, s)) == s,
        (c is SnakeCase || c is ScreammingSnakeCase) ==> join_sep(spec_tokenize(c, s)) == s,
{
    lemma_concat_split_upper(s);
    lemma_join_split_sep(s);
}

/// Round trip: a Camel line that does not start with an ASCII uppercase
/// letter converts to Pascal and back to Camel unchanged.
pub proof fn lemma_round_trip_camel_pascal(s: Seq<char>)
    requires
        s.len() > 0 ==> !is_upper_char(s[0]),
    ensures
        spec_convert(
            NameConvention::PascalCase,
            spec_convert(NameConvention::CamelCase, s, NameConvention::PascalCase),
            NameConvention::CamelCase,
        ) == s,
{
    if s.len() == 0 {
        lemma_empty_input(NameConvention::CamelCase, NameConvention::PascalCase);
        lemma_empty_input(NameConvention::PascalCase, NameConvention::CamelCase);
        assert(s =~= Seq::<char>::empty());
    } else {
        let ws = split_upper(s);
        lemma_split_upper_shape(s, 0, 0);
        lemma_concat_split_upper(s);
        assert(ws =~= seq![ws[0]] + ws.skip(1));
        lemma_concat_cons(ws[0], ws.skip(1));
        assert(s == ws[0] + concat_of(ws.skip(1)));
        assert(ws[0].len() > 0);
        assert(ws[0][0] == s[0]);
        lemma_pascal_of_concat(ws);
        let cs = ws.map_values(|w: Seq<char>| pascal_word(w));
        let t = pascal_of(ws);
        assert(t == concat_of(cs));
        assert(cs.len() == ws.len() >= 1);
        assert(cs[0] == pascal_word(ws[0]));
        assert(cs[0].len() == ws[0].len() > 0);
        assert forall|j: int| 1 <= j < cs[0].len() implies !is_upper_char(
            #[trigger] cs[0][j],
        ) by {
            assert(cs[0][j] == lower_word(ws[0].skip(1))[j - 1]);
            assert(cs[0][j] == lower_char(ws[0][j]));
            lemma_char_case(ws[0][j]);
        }
        assert forall|k: int| 0 <= k < cs.skip(1).len() implies cap_word_shape(
            #[trigger] cs.skip(1)[k],
        ) by {
            let w = ws[k + 1];
            assert(w.len() > 0 && is_upper_char(w[0]));
            assert(cs.skip(1)[k] == pascal_word(w));
            assert(pascal_word(w)[0] == upper_char(w[0]));
            lemma_char_case(w[0]);
            assert forall|j: int| 1 <= j < pascal_word(w).len() implies !is_upper_char(
                #[trigger] pascal_word(w)[j],
            ) by {
                assert(pascal_word(w)[j] == lower_char(w[j]));
                lemma_char_case(w[j]);
            }
        }
        assert(cs =~= seq![cs[0]] + cs.skip(1));
        lemma_concat_cons(cs[0], cs.skip(1));
        assert(t == cs[0] + concat_of(cs.skip(1)));
        lemma_split_upper_head_caps(cs[0], cs.skip(1));
        assert(split_upper(t) == seq![cs[0]] + cs.skip(1));
        assert(split_upper(t) == cs);
        assert(camel_of(cs) == lower_word(cs[0]) + camel_tail_of(cs.skip(1)));
        assert(lower_word(cs[0]) =~= ws[0]) by {
            assert(cs[0][0] == upper_char(ws[0][0]));
            lemma_char_case(ws[0][0]);
            assert(lower_char(upper_char(ws[0][0])) == ws[0][0]);
            assert forall|j: int| 1 <= j < ws[0].len() implies lower_char(
                #[trigger] cs[0][j],
            ) == ws[0][j] by {
                assert(cs[0][j] == lower_char(ws[0][j]));
                lemma_char_case(ws[0][j]);
            }
        }
        lemma_camel_tail_of_concat(cs.skip(1));
        assert(cs.skip(1).map_values(|w: Seq<char>| camel_word(w)) =~= ws.skip(1)) by {
            assert forall|k: int| 0 <= k < cs.skip(1).len() implies camel_word(
                #[trigger] cs.skip(1)[k],
            ) == ws.skip(1)[k] by {
                let w = ws[k + 1];
                assert(w.len() > 0 && is_upper_char(w[0]));
                assert(cs.skip(1)[k] == pascal_word(w));
                let p = pascal_word(w);
                assert(camel_word(p) =~= w) by {
                    assert(p.len() == w.len());
                    assert(p[0] == upper_char(w[0]));
                    lemma_char_case(w[0]);
                    assert(upper_char(upper_char(w[0])) == upper_char(w[0]) == w[0]);
                    assert(camel_word(p)[0] == upper_char(p[0]));
                    assert forall|j: int| 1 <= j < w.len() implies camel_word(p)[j] == w[
                        j
                    ] by {
                        assert(camel_word(p)[j] == p[j]);
                        assert(p[j] == lower_char(w[j]));
                        lemma_char_case(w[j]);
                    }
                }
            }
        }
        assert(camel_of(cs) == ws[0] + concat_of(ws.skip(1)));
    }
}

/// Round trip: a Pascal line that does not start with an ASCII lowercase
/// letter converts to Camel and back to Pascal unchanged.
pub proof fn lemma_round_trip_pascal_camel(s: Seq<char>)
    requires
        s.len() > 0 ==> !is_lower_char(s[0]),
    ensures
        spec_convert(
            NameConvention::CamelCase,
            spec_convert(NameConvention::PascalCase, s, NameConvention::CamelCase),
            NameConvention::PascalCase,
        ) == s,
{
    if s.len() == 0 {
        lemma_empty_input(NameConvention::PascalCase, NameConvention::CamelCase);
        lemma_empty_input(NameConvention::CamelCase, NameConvention::PascalCase);
        assert(s =~= Seq::<char>::empty());
    } else {
        let ws = split_upper(s);
        lemma_split_upper_shape(s, 0, 0);
        lemma_concat_split_upper(s);
        assert(ws =~= seq![ws[0]] + ws.skip(1));
        lemma_concat_cons(ws[0], ws.skip(1));
        assert(s == ws[0] + concat_of(ws.skip(1)));
        assert(ws[0].len() > 0);
        assert(ws[0][0] == s[0]);
        let h = lower_word(ws[0]);
        lemma_lower_word_idem(ws[0]);
        assert(h.len() == ws[0].len() > 0);
        let tail = ws.skip(1);
        lemma_camel_tail_of_concat(tail);
        let cs = tail.map_values(|w: Seq<char>| camel_word(w));
        let t = camel_of(ws);
        assert(t == h + concat_of(cs));
        assert forall|k: int| 0 <= k < cs.len() implies cap_word_shape(#[trigger] cs[k]) by {
            let w = tail[k];
            assert(w == ws[k + 1]);
            assert(w.len() > 0 && is_upper_char(w[0]));
            assert(forall|j: int| 1 <= j < w.len() ==> !is_upper_char(w[j]));
            lemma_char_case(w[0]);
            assert(cs[k] == camel_word(w));
            assert(cs[k].len() == w.len());
            assert(cs[k][0] == upper_char(w[0]));
            assert(forall|j: int| 1 <= j < cs[k].len() ==> cs[k][j] == w[j]);
        }
        lemma_split_upper_head_caps(h, cs);
        let ws2 = seq![h] + cs;
        assert(split_upper(t) == ws2);
        lemma_pascal_of_concat(ws2);
        assert(ws2.map_values(|w: Seq<char>| pascal_word(w)) =~= ws) by {
            assert(ws2.len() == ws.len());
            assert(ws2[0] == h);
            assert(pascal_word(h) =~= ws[0]) by {
                assert(h[0] == lower_char(ws[0][0]));
                lemma_char_case(ws[0][0]);
                assert(upper_char(lower_char(ws[0][0])) == ws[0][0]);
                assert(pascal_word(h)[0] == upper_char(h[0]));
                assert forall|j: int| 1 <= j < ws[0].len() implies pascal_word(h)[j] == ws[0][
                    j
                ] by {
                    assert(pascal_word(h)[j] == lower_char(h[j]));
                    assert(h[j] == lower_char(ws[0][j]));
                    lemma_char_case(ws[0][j]);
                }
            }
            assert forall|k: int| 1 <= k < ws2.len() implies pascal_word(#[trigger] ws2[k])
                == ws[k] by {
                let w = ws[k];
                assert(w.len() > 0 && is_upper_char(w[0]));
                assert(ws2[k] == cs[k - 1]);
                assert(cs[k - 1] == camel_word(w));
                let c = camel_word(w);
                assert(pascal_word(c) =~= w) by {
                    assert(c.len() == w.len());
                    assert(c[0] == upper_char(w[0]));
                    lemma_char_case(w[0]);
                    assert(upper_char(upper_char(w[0])) == upper_char(w[0]) == w[0]);
                    assert(pascal_word(c)[0] == upper_char(c[0]));
                    assert forall|j: int| 1 <= j < w.len() implies pascal_word(c)[j] == w[
                        j
                    ] by {
                        assert(pascal_word(c)[j] == lower_char(c[j]));
                        assert(c[j] == w[j]);
                        lemma_char_case(w[j]);
                    }
                }
            }
        }
        assert(pascal_of(ws2) == concat_of(ws));
        assert(concat_of(ws) == s) by {
            lemma_concat_split_upper(s);
        }
    }
}

} // verus!
