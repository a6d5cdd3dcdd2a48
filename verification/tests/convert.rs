use name_convention::convention::{ConvError, NameConvention};

#[test]
fn camel_case_to_snake_case() {
    let buff = String::from("helloWorld");

    let result =
        NameConvention::convert(NameConvention::CamelCase, &buff, NameConvention::SnakeCase);

    assert_eq!(result, "hello_world");
}

#[test]
fn snake_case_to_camel_case() {
    let buff = String::from("hello_world");

    let result =
        NameConvention::convert(NameConvention::SnakeCase, &buff, NameConvention::CamelCase);

    assert_eq!(result, "helloWorld");
}

#[test]
fn camel_case_to_pascal_case() {
    let buff = String::from("helloWorld");

    let result =
        NameConvention::convert(NameConvention::CamelCase, &buff, NameConvention::PascalCase);

    assert_eq!(result, "HelloWorld");
}

#[test]
fn pascal_case_to_camel_case() {
    let buff = String::from("HelloWorld");

    let result =
        NameConvention::convert(NameConvention::PascalCase, &buff, NameConvention::CamelCase);

    assert_eq!(result, "helloWorld");
}

#[test]
fn snake_case_to_pascal_case() {
    let buff = String::from("hello_world");

    let result =
        NameConvention::convert(NameConvention::SnakeCase, &buff, NameConvention::PascalCase);

    assert_eq!(result, "HelloWorld");
}

#[test]
fn pascal_case_to_snake_case() {
    let buff = String::from("HelloWorld");

    let result =
        NameConvention::convert(NameConvention::PascalCase, &buff, NameConvention::SnakeCase);

    assert_eq!(result, "hello_world");
}

#[test]
fn screamming_snake_case_to_pascal_case() {
    let buff = String::from("HELLO_WORLD");

    let result = NameConvention::convert(
        NameConvention::ScreammingSnakeCase,
        &buff,
        NameConvention::PascalCase,
    );

    assert_eq!(result, "HelloWorld");
}

#[test]
fn pascal_case_to_screamming_snake_case() {
    let buff = String::from("HelloWorld");

    let result = NameConvention::convert(
        NameConvention::PascalCase,
        &buff,
        NameConvention::ScreammingSnakeCase,
    );

    assert_eq!(result, "HELLO_WORLD");
}

#[test]
fn tokenize_camel_gives_words() {
    let words = NameConvention::tokenize(NameConvention::CamelCase, "helloWorld").unwrap();
    assert_eq!(words, vec!["hello", "World"]);
    let result = NameConvention::assemble(NameConvention::SnakeCase, words).unwrap();
    assert_eq!(result, "hello_world");
}

#[test]
fn assemble_pascal_from_words() {
    let words = vec!["hello", "world"];
    let result = NameConvention::assemble(NameConvention::PascalCase, words).unwrap();
    assert_eq!(result, "HelloWorld");
}

#[test]
fn assemble_camel_from_words() {
    let words = vec!["hello", "world"];
    let result = NameConvention::assemble(NameConvention::CamelCase, words).unwrap();
    assert_eq!(result, "helloWorld");
}

#[test]
fn tokenize_pascal_assemble_screamming() {
    let words = NameConvention::tokenize(NameConvention::PascalCase, "HelloWorld").unwrap();
    let result = NameConvention::assemble(NameConvention::ScreammingSnakeCase, words).unwrap();
    assert_eq!(result, "HELLO_WORLD");
}

#[test]
fn tokenize_screamming_assemble_camel() {
    let words =
        NameConvention::tokenize(NameConvention::ScreammingSnakeCase, "HELLO_WORLD").unwrap();
    let result = NameConvention::assemble(NameConvention::CamelCase, words).unwrap();
    // The camel assembler lowercases only the first word; the tails of
    // later words keep their original casing.
    assert_eq!(result, "helloWORLD");
}

#[test]
fn round_trip_snake_camel_snake() {
    let camel =
        NameConvention::convert(NameConvention::SnakeCase, "hello_world", NameConvention::CamelCase);
    let back =
        NameConvention::convert(NameConvention::CamelCase, &camel, NameConvention::SnakeCase);
    assert_eq!(back, "hello_world");
}

#[test]
fn pascal_to_pascal_is_idempotent() {
    let once = NameConvention::convert(
        NameConvention::PascalCase,
        "HELLOWORLD",
        NameConvention::PascalCase,
    );
    let twice =
        NameConvention::convert(NameConvention::PascalCase, &once, NameConvention::PascalCase);
    assert_eq!(twice, once);
    // Under the per-letter boundary rule every uppercase letter is its own
    // word, so all-caps input keeps its casing.
    assert_eq!(once, "HELLOWORLD");
}

#[test]
fn snake_to_snake_canonicalizes_case() {
    let once =
        NameConvention::convert(NameConvention::SnakeCase, "Hello_World", NameConvention::SnakeCase);
    assert_eq!(once, "hello_world");
    let twice =
        NameConvention::convert(NameConvention::SnakeCase, &once, NameConvention::SnakeCase);
    assert_eq!(twice, once);
}

#[test]
fn camel_to_camel_is_idempotent() {
    let once =
        NameConvention::convert(NameConvention::CamelCase, "fooBARBaz", NameConvention::CamelCase);
    let twice =
        NameConvention::convert(NameConvention::CamelCase, &once, NameConvention::CamelCase);
    assert_eq!(twice, once);
}

#[test]
fn screamming_to_screamming_canonicalizes_case() {
    let once = NameConvention::convert(
        NameConvention::ScreammingSnakeCase,
        "Hello_World",
        NameConvention::ScreammingSnakeCase,
    );
    assert_eq!(once, "HELLO_WORLD");
    let twice = NameConvention::convert(
        NameConvention::ScreammingSnakeCase,
        &once,
        NameConvention::ScreammingSnakeCase,
    );
    assert_eq!(twice, once);
}

#[test]
fn round_trip_snake_pascal_snake() {
    let pascal = NameConvention::convert(
        NameConvention::SnakeCase,
        "one_two_three",
        NameConvention::PascalCase,
    );
    assert_eq!(pascal, "OneTwoThree");
    let back =
        NameConvention::convert(NameConvention::PascalCase, &pascal, NameConvention::SnakeCase);
    assert_eq!(back, "one_two_three");
}

#[test]
fn round_trip_camel_snake_camel() {
    let snake =
        NameConvention::convert(NameConvention::CamelCase, "helloWorld", NameConvention::SnakeCase);
    let back =
        NameConvention::convert(NameConvention::SnakeCase, &snake, NameConvention::CamelCase);
    assert_eq!(back, "helloWorld");
}

#[test]
fn round_trip_screamming_pascal_screamming() {
    let pascal = NameConvention::convert(
        NameConvention::ScreammingSnakeCase,
        "HELLO_WORLD",
        NameConvention::PascalCase,
    );
    let back = NameConvention::convert(
        NameConvention::PascalCase,
        &pascal,
        NameConvention::ScreammingSnakeCase,
    );
    assert_eq!(back, "HELLO_WORLD");
}

#[test]
fn empty_line_converts_to_empty_line() {
    let conventions = [
        NameConvention::PascalCase,
        NameConvention::CamelCase,
        NameConvention::SnakeCase,
        NameConvention::ScreammingSnakeCase,
    ];
    for from in conventions {
        for to in conventions {
            let result = NameConvention::convert(from, "", to);
            assert_eq!(result, "");
        }
    }
}

#[test]
fn unknown_alias_is_rejected() {
    assert_eq!(
        NameConvention::from_alias("xyz"),
        Err(ConvError::InvalidConvention)
    );
    assert_eq!(NameConvention::from_alias(""), Err(ConvError::InvalidConvention));
    assert_eq!(
        NameConvention::from_alias("screaming"),
        Err(ConvError::InvalidConvention)
    );
}

#[test]
fn known_aliases_are_accepted() {
    assert_eq!(NameConvention::from_alias("p"), Ok(NameConvention::PascalCase));
    assert_eq!(NameConvention::from_alias("P"), Ok(NameConvention::PascalCase));
    assert_eq!(NameConvention::from_alias("pascal"), Ok(NameConvention::PascalCase));
    assert_eq!(NameConvention::from_alias("Pascal"), Ok(NameConvention::PascalCase));
    assert_eq!(NameConvention::from_alias("c"), Ok(NameConvention::CamelCase));
    assert_eq!(NameConvention::from_alias("camel"), Ok(NameConvention::CamelCase));
    assert_eq!(NameConvention::from_alias("s"), Ok(NameConvention::SnakeCase));
    assert_eq!(NameConvention::from_alias("Snake"), Ok(NameConvention::SnakeCase));
    assert_eq!(NameConvention::from_alias("k"), Ok(NameConvention::KebabCase));
    assert_eq!(NameConvention::from_alias("kebab"), Ok(NameConvention::KebabCase));
    assert_eq!(
        NameConvention::from_alias("ss"),
        Ok(NameConvention::ScreammingSnakeCase)
    );
    assert_eq!(
        NameConvention::from_alias("SS"),
        Ok(NameConvention::ScreammingSnakeCase)
    );
    assert_eq!(
        NameConvention::from_alias("screamming"),
        Ok(NameConvention::ScreammingSnakeCase)
    );
    assert_eq!(
        NameConvention::from_alias("Screamming"),
        Ok(NameConvention::ScreammingSnakeCase)
    );
}

#[test]
fn kebab_is_reported_unsupported() {
    assert_eq!(
        NameConvention::try_convert(NameConvention::KebabCase, "a-b", NameConvention::SnakeCase),
        Err(ConvError::UnsupportedConversion)
    );
    assert_eq!(
        NameConvention::try_convert(NameConvention::SnakeCase, "a_b", NameConvention::KebabCase),
        Err(ConvError::UnsupportedConversion)
    );
    assert_eq!(
        NameConvention::tokenize(NameConvention::KebabCase, "a-b"),
        Err(ConvError::UnsupportedConversion)
    );
    assert_eq!(
        NameConvention::assemble(NameConvention::KebabCase, vec!["a", "b"]),
        Err(ConvError::UnsupportedConversion)
    );
}

#[test]
fn try_convert_succeeds_on_supported_pairs() {
    assert_eq!(
        NameConvention::try_convert(
            NameConvention::SnakeCase,
            "hello_world",
            NameConvention::PascalCase
        ),
        Ok(String::from("HelloWorld"))
    );
}

#[test]
fn consecutive_separators_keep_empty_words() {
    let words = NameConvention::tokenize(NameConvention::SnakeCase, "a__b").unwrap();
    assert_eq!(words, vec!["a", "", "b"]);
    // Snake assembly joins literally, so the empty word doubles the
    // separator; Pascal assembly skips it.
    assert_eq!(
        NameConvention::assemble(NameConvention::SnakeCase, words.clone()).unwrap(),
        "a__b"
    );
    assert_eq!(
        NameConvention::assemble(NameConvention::PascalCase, words).unwrap(),
        "AB"
    );
}

#[test]
fn separate_by_upper_keeps_all_characters() {
    let words = NameConvention::separate_by_upper("getHTTPResponse");
    assert_eq!(words, vec!["get", "H", "T", "T", "P", "Response"]);
}

#[test]
fn separate_by_upper_on_empty_gives_one_empty_word() {
    let words = NameConvention::separate_by_upper("");
    assert_eq!(words, vec![""]);
}

#[test]
fn camel_tail_keeps_original_case() {
    // The camel assembler lowercases only the first word; later words keep
    // the casing of their tails.
    let result = NameConvention::convert(
        NameConvention::SnakeCase,
        "get_HTML_page",
        NameConvention::CamelCase,
    );
    assert_eq!(result, "getHTMLPage");
}

#[test]
fn pascal_assembler_lowercases_tails() {
    let words = vec!["hELLO", "wORLD"];
    let result = NameConvention::assemble(NameConvention::PascalCase, words).unwrap();
    assert_eq!(result, "HelloWorld");
}
