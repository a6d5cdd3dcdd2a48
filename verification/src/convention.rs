//! The naming conventions, the tokenizer, and the assemblers.

use vstd::prelude::*;
use vstd::string::StrSliceExecFns;
use crate::casing::{lower_char, lower_word, upper_char, upper_word};
use crate::model::{
    camel_of, camel_word, join_sep, lemma_camel_of_take, lemma_join_sep_take,
    lemma_pascal_of_take, pascal_of, pascal_word, screaming_of, snake_of, split_sep,
    split_sep_from, split_upper, split_upper_from, word_views,
};
use crate::text::{push_char, str_eq};
use crate::casing::{char_is_upper, char_to_lower, char_to_upper};

verus! {

/// One of the five supported identifier conventions.
#[derive(Copy, Clone, Debug, PartialEq, Eq, Structural)]
pub enum NameConvention {
    PascalCase,
    CamelCase,
    SnakeCase,
    ScreammingSnakeCase,
    KebabCase,
}

/// The errors the converter can report. `InvalidConvention` comes from an
/// alias string that names no convention; `UnsupportedConversion` from a
/// request to tokenize or assemble Kebab, which is not implemented.
#[derive(Copy, Clone, Debug, PartialEq, Eq, Structural)]
pub enum ConvError {
    InvalidConvention,
    UnsupportedConversion,
}

/// The convention an alias string names, if any: a one-letter or full
/// name, capitalized or not. The accepted aliases for ScreamingSnake are
/// `ss`, `SS`, `screamming` and `Screamming`.
pub open spec fn alias_of(s: Seq<char>) -> Option<NameConvention> {
    if s == "p"@ || s == "P"@ || s == "pascal"@ || s == "Pascal"@ {
        Some(NameConvention::PascalCase)
    } else if s == "c"@ || s == "C"@ || s == "camel"@ || s == "Camel"@ {
        Some(NameConvention::CamelCase)
    } else if s == "s"@ || s == "S"@ || s == "snake"@ || s == "Snake"@ {
        Some(NameConvention::SnakeCase)
    } else if s == "k"@ || s == "K"@ || s == "kebab"@ || s == "Kebab"@ {
        Some(NameConvention::KebabCase)
    } else if s == "ss"@ || s == "SS"@ || s == "screamming"@ || s == "Screamming"@ {
        Some(NameConvention::ScreammingSnakeCase)
    } else {
        None
    }
}

/// The words of `s` under the convention `c`'s splitting rule. The Kebab
/// arm is a placeholder: no executable function exposes it.
pub open spec fn spec_tokenize(c: NameConvention, s: Seq<char>) -> Seq<Seq<char>> {
    match c {
        NameConvention::PascalCase => split_upper(s),
        NameConvention::CamelCase => split_upper(s),
        NameConvention::SnakeCase => split_sep(s),
        NameConvention::ScreammingSnakeCase => split_sep(s),
        NameConvention::KebabCase => Seq::empty(),
    }
}

/// The string the words `ws` assemble to under the convention `c`'s
/// casing and separator rules. The Kebab arm is a placeholder: no
/// executable function exposes it.
pub open spec fn spec_assemble(c: NameConvention, ws: Seq<Seq<char>>) -> Seq<char> {
    match c {
        NameConvention::PascalCase => pascal_of(ws),
        NameConvention::CamelCase => camel_of(ws),
        NameConvention::SnakeCase => snake_of(ws),
        NameConvention::ScreammingSnakeCase => screaming_of(ws),
        NameConvention::KebabCase => Seq::empty(),
    }
}

/// The conversion of `s` from convention `from` to convention `to`:
/// tokenize under `from`, assemble under `to`.
pub open spec fn spec_convert(from: NameConvention, s: Seq<char>, to: NameConvention) -> Seq<
    char,
> {
    spec_assemble(to, spec_tokenize(from, s))
}

impl NameConvention {
    /// Maps an alias string to its convention, or reports
    /// `InvalidConvention` for a string that names none.
    pub fn from_alias(value: &str) -> (r: Result<NameConvention, ConvError>)
        ensures
            r matches Ok(c) ==> alias_of(value@) == Some(c),
            r is Err <==> alias_of(value@) is None,
            r matches Err(e) ==> e == ConvError::InvalidConvention,
    {
        if str_eq(value, "p") || str_eq(value, "P") || str_eq(value, "pascal") || str_eq(
            value,
            "Pascal",
        ) {
            Ok(NameConvention::PascalCase)
        } else if str_eq(value, "c") || str_eq(value, "C") || str_eq(value, "camel") || str_eq(
            value,
            "Camel",
        ) {
            Ok(NameConvention::CamelCase)
        } else if str_eq(value, "s") || str_eq(value, "S") || str_eq(value, "snake") || str_eq(
            value,
            "Snake",
        ) {
            Ok(NameConvention::SnakeCase)
        } else if str_eq(value, "k") || str_eq(value, "K") || str_eq(value, "kebab") || str_eq(
            value,
            "Kebab",
        ) {
            Ok(NameConvention::KebabCase)
        } else if str_eq(value, "ss") || str_eq(value, "SS") || str_eq(value, "screamming")
            || str_eq(value, "Screamming") {
            Ok(NameConvention::ScreammingSnakeCase)
        } else {
            Err(ConvError::InvalidConvention)
        }
    }

    /// Splits `buff` at every ASCII uppercase character: the span before
    /// each boundary is kept when non-empty, and the final span is always
    /// kept, so the empty string yields one empty word.
    pub fn separate_by_upper<'a>(buff: &'a str) -> (words: Vec<&'a str>)
        ensures
            word_views(words@) == split_upper(buff@),
    {
        let mut words: Vec<&'a str> = Vec::new();
        let mut last: usize = 0;
        let n = buff.unicode_len();
        let mut i: usize = 0;
        while i < n
            invariant
                n == buff@.len(),
                i <= n,
                last <= i,
                split_upper(buff@) == word_views(words@) + split_upper_from(
                    buff@,
                    last as int,
                    i as int,
                ),
            decreases n - i,
        {
            let c = buff.get_char(i);
            if char_is_upper(c) {
                if last < i {
                    let ghost old_words = words@;
                    let w = buff.substring_char(last, i);
                    words.push(w);
                    proof {
                        assert(word_views(words@) =~= word_views(old_words) + seq![w@]);
                        assert(word_views(old_words) + (seq![buff@.subrange(
                            last as int,
                            i as int,
                        )] + split_upper_from(buff@, i as int, i + 1)) =~= (word_views(old_words)
                            + seq![buff@.subrange(last as int, i as int)]) + split_upper_from(
                            buff@,
                            i as int,
                            i + 1,
                        ));
                    }
                }
                last = i;
            }
            i += 1;
        }
        let ghost old_words = words@;
        let w = buff.substring_char(last, n);
        words.push(w);
        proof {
            assert(word_views(words@) =~= word_views(old_words) + seq![w@]);
        }
        words
    }

    /// Splits `buff` at every `_`, keeping every span, empty spans
    /// included, so the empty string yields one empty word.
    pub fn separate_by_separator<'a>(buff: &'a str) -> (words: Vec<&'a str>)
        ensures
            word_views(words@) == split_sep(buff@),
    {
        let mut words: Vec<&'a str> = Vec::new();
        let mut last: usize = 0;
        let n = buff.unicode_len();
        let mut i: usize = 0;
        while i < n
            invariant
                n == buff@.len(),
                i <= n,
                last <= i,
                split_sep(buff@) == word_views(words@) + split_sep_from(
                    buff@,
                    last as int,
                    i as int,
                ),
            decreases n - i,
        {
            let c = buff.get_char(i);
            if c == '_' {
                let ghost old_words = words@;
                let w = buff.substring_char(last, i);
                words.push(w);
                proof {
                    assert(word_views(words@) =~= word_views(old_words) + seq![w@]);
                    assert(word_views(old_words) + (seq![buff@.subrange(last as int, i as int)]
                        + split_sep_from(buff@, i + 1, i + 1)) =~= (word_views(old_words)
                        + seq![buff@.subrange(last as int, i as int)]) + split_sep_from(
                        buff@,
                        i + 1,
                        i + 1,
                    ));
                }
                last = i + 1;
            }
            i += 1;
        }
        let ghost old_words = words@;
        let w = buff.substring_char(last, n);
        words.push(w);
        proof {
            assert(word_views(words@) =~= word_views(old_words) + seq![w@]);
        }
        words
    }

    /// Splits `input` into words under the source convention, or reports
    /// `UnsupportedConversion` exactly when the source is Kebab.
    pub fn tokenize<'a>(source: NameConvention, input: &'a str) -> (r: Result<
        Vec<&'a str>,
        ConvError,
    >)
        ensures
            r is Err <==> source is KebabCase,
            r matches Err(e) ==> e == ConvError::UnsupportedConversion,
            r matches Ok(words) ==> word_views(words@) == spec_tokenize(source, input@),
    {
        match source {
            NameConvention::PascalCase => Ok(Self::separate_by_upper(input)),
            NameConvention::CamelCase => Ok(Self::separate_by_upper(input)),
            NameConvention::SnakeCase => Ok(Self::separate_by_separator(input)),
            NameConvention::ScreammingSnakeCase => Ok(Self::separate_by_separator(input)),
            NameConvention::KebabCase => Err(ConvError::UnsupportedConversion),
        }
    }

    /// Joins the words with no separator, uppercasing each word's first
    /// character and lowercasing the rest; empty words contribute nothing.
    pub fn convert_to_pascal_case(buff: Vec<&str>) -> (result: String)
        ensures
            result@ == pascal_of(word_views(buff@)),
    {
        let ghost ws = word_views(buff@);
        let mut result = String::new();
        let mut k: usize = 0;
        while k < buff.len()
            invariant
                ws == word_views(buff@),
                k <= buff.len(),
                result@ == pascal_of(ws.take(k as int)),
            decreases buff.len() - k,
        {
            let word: &str = buff[k];
            let m = word.unicode_len();
            assert(word@ == ws[k as int]);
            if m > 0 {
                push_char(&mut result, char_to_upper(word.get_char(0)));
                let mut j: usize = 1;
                while j < m
                    invariant
                        ws == word_views(buff@),
                        k < buff.len(),
                        word@ == ws[k as int],
                        m == word@.len(),
                        1 <= j <= m,
                        result@ == pascal_of(ws.take(k as int)) + seq![upper_char(word@[0])]
                            + lower_word(word@.subrange(1, j as int)),
                    decreases m - j,
                {
                    push_char(&mut result, char_to_lower(word.get_char(j)));
                    proof {
                        assert(lower_word(word@.subrange(1, j + 1)) =~= lower_word(
                            word@.subrange(1, j as int),
                        ).push(lower_char(word@[j as int])));
                        assert(result@ =~= pascal_of(ws.take(k as int)) + seq![upper_char(
                            word@[0],
                        )] + lower_word(word@.subrange(1, j + 1)));
                    }
                    j += 1;
                }
                proof {
                    lemma_pascal_of_take(ws, k as int);
                    assert(word@.subrange(1, m as int) =~= word@.skip(1));
                    assert(result@ =~= pascal_of(ws.take(k + 1)));
                }
            } else {
                proof {
                    lemma_pascal_of_take(ws, k as int);
                    assert(pascal_word(ws[k as int]) =~= Seq::<char>::empty());
                    assert(result@ =~= pascal_of(ws.take(k + 1)));
                }
            }
            k += 1;
        }
        proof {
            assert(ws.take(buff.len() as int) =~= ws);
        }
        result
    }

    /// Joins the words with no separator: the first word entirely
    /// lowercased, each later word with its first character uppercased and
    /// the rest kept as it is; empty words contribute nothing.
    pub fn convert_to_camel_case(buff: Vec<&str>) -> (result: String)
        ensures
            result@ == camel_of(word_views(buff@)),
    {
        let ghost ws = word_views(buff@);
        let mut result = String::new();
        let mut k: usize = 0;
        while k < buff.len()
            invariant
                ws == word_views(buff@),
                k <= buff.len(),
                result@ == camel_of(ws.take(k as int)),
            decreases buff.len() - k,
        {
            let word: &str = buff[k];
            let m = word.unicode_len();
            assert(word@ == ws[k as int]);
            if k == 0 {
                let mut j: usize = 0;
                while j < m
                    invariant
                        ws == word_views(buff@),
                        0 < buff.len(),
                        word@ == ws[0],
                        m == word@.len(),
                        j <= m,
                        result@ == lower_word(word@.subrange(0, j as int)),
                    decreases m - j,
                {
                    push_char(&mut result, char_to_lower(word.get_char(j)));
                    proof {
                        assert(lower_word(word@.subrange(0, j + 1)) =~= lower_word(
                            word@.subrange(0, j as int),
                        ).push(lower_char(word@[j as int])));
                    }
                    j += 1;
                }
                proof {
                    lemma_camel_of_take(ws, 0);
                    assert(word@.subrange(0, m as int) =~= word@);
                }
            } else {
                if m > 0 {
                    push_char(&mut result, char_to_upper(word.get_char(0)));
                    let mut j: usize = 1;
                    while j < m
                        invariant
                            ws == word_views(buff@),
                            0 < k < buff.len(),
                            word@ == ws[k as int],
                            m == word@.len(),
                            1 <= j <= m,
                            result@ == camel_of(ws.take(k as int)) + seq![upper_char(word@[0])]
                                + word@.subrange(1, j as int),
                        decreases m - j,
                    {
                        push_char(&mut result, word.get_char(j));
                        proof {
                            assert(word@.subrange(1, j + 1) =~= word@.subrange(
                                1,
                                j as int,
                            ).push(word@[j as int]));
                            assert(result@ =~= camel_of(ws.take(k as int)) + seq![upper_char(
                                word@[0],
                            )] + word@.subrange(1, j + 1));
                        }
                        j += 1;
                    }
                    proof {
                        lemma_camel_of_take(ws, k as int);
                        assert(word@.subrange(1, m as int) =~= word@.skip(1));
                        assert(result@ =~= camel_of(ws.take(k + 1)));
                    }
                } else {
                    proof {
                        lemma_camel_of_take(ws, k as int);
                        assert(camel_word(ws[k as int]) =~= Seq::<char>::empty());
                        assert(result@ =~= camel_of(ws.take(k + 1)));
                    }
                }
            }
            k += 1;
        }
        proof {
            assert(ws.take(buff.len() as int) =~= ws);
        }
        result
    }

    /// Joins the words with single `_` separators, lowercasing every word;
    /// empty words still get their separator.
    pub fn convert_to_snake_case(buff: Vec<&str>) -> (result: String)
        ensures
            result@ == snake_of(word_views(buff@)),
    {
        let ghost ls = word_views(buff@).map_values(|w: Seq<char>| lower_word(w));
        let mut result = String::new();
        let mut k: usize = 0;
        while k < buff.len()
            invariant
                ls == word_views(buff@).map_values(|w: Seq<char>| lower_word(w)),
                ls.len() == buff.len(),
                k <= buff.len(),
                result@ == join_sep(ls.take(k as int)),
            decreases buff.len() - k,
        {
            let word: &str = buff[k];
            let m = word.unicode_len();
            assert(lower_word(word@) == ls[k as int]);
            if k > 0 {
                push_char(&mut result, '_');
            }
            let ghost base = result@;
            let mut j: usize = 0;
            while j < m
                invariant
                    m == word@.len(),
                    j <= m,
                    result@ == base + lower_word(word@.subrange(0, j as int)),
                decreases m - j,
            {
                push_char(&mut result, char_to_lower(word.get_char(j)));
                proof {
                    assert(lower_word(word@.subrange(0, j + 1)) =~= lower_word(
                        word@.subrange(0, j as int),
                    ).push(lower_char(word@[j as int])));
                    assert(result@ =~= base + lower_word(word@.subrange(0, j + 1)));
                }
                j += 1;
            }
            proof {
                lemma_join_sep_take(ls, k as int);
                assert(word@.subrange(0, m as int) =~= word@);
                if k == 0 {
                    assert(base =~= Seq::<char>::empty() + seq![]);
                    assert(result@ =~= join_sep(ls.take(k + 1)));
                } else {
                    assert(result@ =~= join_sep(ls.take(k + 1)));
                }
            }
            k += 1;
        }
        proof {
            assert(ls.take(buff.len() as int) =~= ls);
        }
        result
    }

    /// Joins the words with single `_` separators, uppercasing every word;
    /// empty words still get their separator.
    pub fn convert_to_screamming_snake_case(buff: Vec<&str>) -> (result: String)
        ensures
            result@ == screaming_of(word_views(buff@)),
    {
        let ghost us = word_views(buff@).map_values(|w: Seq<char>| upper_word(w));
        let mut result = String::new();
        let mut k: usize = 0;
        while k < buff.len()
            invariant
                us == word_views(buff@).map_values(|w: Seq<char>| upper_word(w)),
                us.len() == buff.len(),
                k <= buff.len(),
                result@ == join_sep(us.take(k as int)),
            decreases buff.len() - k,
        {
            let word: &str = buff[k];
            let m = word.unicode_len();
            assert(upper_word(word@) == us[k as int]);
            if k > 0 {
                push_char(&mut result, '_');
            }
            let ghost base = result@;
            let mut j: usize = 0;
            while j < m
                invariant
                    m == word@.len(),
                    j <= m,
                    result@ == base + upper_word(word@.subrange(0, j as int)),
                decreases m - j,
            {
                push_char(&mut result, char_to_upper(word.get_char(j)));
                proof {
                    assert(upper_word(word@.subrange(0, j + 1)) =~= upper_word(
                        word@.subrange(0, j as int),
                    ).push(upper_char(word@[j as int])));
                    assert(result@ =~= base + upper_word(word@.subrange(0, j + 1)));
                }
                j += 1;
            }
            proof {
                lemma_join_sep_take(us, k as int);
                assert(word@.subrange(0, m as int) =~= word@);
                assert(result@ =~= join_sep(us.take(k + 1)));
            }
            k += 1;
        }
        proof {
            assert(us.take(buff.len() as int) =~= us);
        }
        result
    }

    /// Joins the words under the target convention, or reports
    /// `UnsupportedConversion` exactly when the target is Kebab.
    pub fn assemble(target: NameConvention, words: Vec<&str>) -> (r: Result<String, ConvError>)
        ensures
            r is Err <==> target is KebabCase,
            r matches Err(e) ==> e == ConvError::UnsupportedConversion,
            r matches Ok(s) ==> s@ == spec_assemble(target, word_views(words@)),
    {
        match target {
            NameConvention::PascalCase => Ok(Self::convert_to_pascal_case(words)),
            NameConvention::CamelCase => Ok(Self::convert_to_camel_case(words)),
            NameConvention::SnakeCase => Ok(Self::convert_to_snake_case(words)),
            NameConvention::ScreammingSnakeCase => Ok(
                Self::convert_to_screamming_snake_case(words),
            ),
            NameConvention::KebabCase => Err(ConvError::UnsupportedConversion),
        }
    }

    /// Converts `buff` from convention `from` to convention `to`:
    /// tokenize, then assemble. Kebab is excluded by the precondition;
    /// `try_convert` reports it as an error instead.
    pub fn convert(from: Self, buff: &str, to: Self) -> (result: String)
        requires
            !(from is KebabCase),
            !(to is KebabCase),
        ensures
            result@ == spec_convert(from, buff@, to),
    {
        let global_format = match Self::tokenize(from, buff) {
            Ok(words) => words,
            Err(_) => vstd::pervasive::unreached(),
        };
        match Self::assemble(to, global_format) {
            Ok(s) => s,
            Err(_) => vstd::pervasive::unreached(),
        }
    }

    /// Converts `buff` from convention `from` to convention `to`, or
    /// reports `UnsupportedConversion` exactly when either side is Kebab.
    pub fn try_convert(from: Self, buff: &str, to: Self) -> (r: Result<String, ConvError>)
        ensures
            r is Err <==> (from is KebabCase || to is KebabCase),
            r matches Err(e) ==> e == ConvError::UnsupportedConversion,
            r matches Ok(s) ==> s@ == spec_convert(from, buff@, to),
    {
        let words = match Self::tokenize(from, buff) {
            Ok(words) => words,
            Err(e) => {
                return Err(e);
            },
        };
        Self::assemble(to, words)
    }
}

} // verus!
