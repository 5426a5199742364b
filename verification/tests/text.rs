use tiny_json::Json;

fn number(text: &str) -> Json {
    Json::Number(String::from(text))
}

fn sample() -> Json {
    let mut inner = Json::new_object();
    inner.insert("list", Json::Array(vec![number("1"), number("2.5"), Json::Null]));
    let mut tree = Json::new_object();
    tree.insert("name", Json::string_from("a, b: c"));
    tree.insert("inner", inner);
    tree.insert("flags", Json::Array(vec![Json::Bool(true), Json::Bool(false)]));
    tree
}

#[test]
fn text_of_each_kind() {
    assert_eq!(Json::Null.to_string(), "null");
    assert_eq!(Json::Bool(true).to_string(), "true");
    assert_eq!(Json::Bool(false).to_string(), "false");
    assert_eq!(number("7").to_string(), "7");
    assert_eq!(number("1.42").to_string(), "1.42");
    assert_eq!(Json::string_from("Hello, you!").to_string(), "\"Hello, you!\"");
    assert_eq!(Json::string_from("").to_string(), "\"\"");
}

#[test]
fn text_of_containers() {
    assert_eq!(Json::new_object().to_string(), "{}");
    assert_eq!(Json::new_array().to_string(), "[]");
    assert_eq!(Json::Array(vec![Json::Null]).to_string(), "[null]");
    assert_eq!(
        Json::Array(vec![number("1"), Json::string_from("a"), Json::Bool(true)]).to_string(),
        "[1,\"a\",true]"
    );
    assert_eq!(
        sample().to_string(),
        "{\"name\":\"a, b: c\",\"inner\":{\"list\":[1,2.5,null]},\"flags\":[true,false]}"
    );
}

#[test]
fn text_does_not_escape() {
    assert_eq!(Json::string_from("a\"b").to_string(), "\"a\"b\"");
    assert_eq!(Json::string_from("a\\b\n").to_string(), "\"a\\b\n\"");
}

#[test]
fn same_tree_same_text() {
    let tree = sample();
    assert_eq!(tree.to_string(), tree.to_string());
    assert_eq!(tree.to_string(), sample().to_string());
}

#[test]
fn text_reads_back_as_the_tree() {
    let tree = sample();
    let read = Json::parse(&tree.to_string());
    assert_eq!(read, Ok(sample()));
    assert_eq!(read.unwrap().to_string(), tree.to_string());

    assert_eq!(Json::parse(&Json::Null.to_string()), Ok(Json::Null));
    assert_eq!(Json::parse(&number("12e3").to_string()), Ok(number("12e3")));
    assert_eq!(
        Json::parse(&Json::string_from("line\nbreak").to_string()),
        Ok(Json::string_from("line\nbreak"))
    );
}

#[test]
fn text_of_empty_containers_is_not_read_back() {
    assert_eq!(Json::parse(&Json::new_object().to_string()), Err(()));
    assert_eq!(Json::parse(&Json::new_array().to_string()), Err(()));
    assert_eq!(Json::parse("{}"), Err(()));
    assert_eq!(Json::parse("[]"), Err(()));
    assert_eq!(Json::parse("[[]]"), Err(()));
}

#[test]
fn whitespace_is_passed_over() {
    assert_eq!(Json::parse("  {  \"k\" : \"v\"  }  "), Json::parse("{\"k\":\"v\"}"));
    let mut expected = Json::new_object();
    expected.insert("k", Json::string_from("v"));
    assert_eq!(Json::parse("  {  \"k\" : \"v\"  }  "), Ok(expected));
    assert_eq!(Json::parse(" \t\r\n\x0C7"), Ok(number("7")));
    assert_eq!(Json::parse("[ 1 ,\n 2 ]"), Ok(Json::Array(vec![number("1"), number("2")])));
}

#[test]
fn number_forms() {
    assert_eq!(Json::parse("1.42"), Ok(number("1.42")));
    assert_eq!(Json::parse("2e2"), Ok(number("2e2")));
    assert_eq!(Json::parse("2E2"), Ok(number("2E2")));
    assert_eq!(Json::parse("0"), Ok(number("0")));
    assert_eq!(Json::parse("007"), Ok(number("007")));
    assert_eq!(Json::parse("1."), Ok(number("1.")));
    assert_eq!(Json::parse("1.e5"), Ok(number("1.e5")));
    assert_eq!(Json::parse("12.50E10"), Ok(number("12.50E10")));
}

#[test]
fn parsed_numbers_are_floats() {
    for text in ["1.42", "2e2", "2E2", "0", "007", "1.", "1.e5", "12.50E10"] {
        match Json::parse(text) {
            Ok(Json::Number(read)) => assert!(read.parse::<f64>().is_ok()),
            other => panic!("{:?}", other),
        }
    }
    assert_eq!("2e2".parse::<f64>(), Ok(200.0));
}

#[test]
fn malformed_numbers_are_refused() {
    assert_eq!(Json::parse("1.2.3"), Err(()));
    assert_eq!(Json::parse("1e"), Err(()));
    assert_eq!(Json::parse("1e5e"), Err(()));
    assert_eq!(Json::parse("1e5.5"), Err(()));
    assert_eq!(Json::parse("1ee5"), Err(()));
    assert_eq!(Json::parse("1.."), Err(()));
    assert_eq!(Json::parse("[1e]"), Err(()));
    for text in ["1.2.3", "1e", "1e5e", "1e5.5", "1ee5", "1.."] {
        assert!(text.parse::<f64>().is_err());
    }
}

#[test]
fn signs_are_not_read() {
    assert_eq!(Json::parse("-5"), Err(()));
    assert_eq!(Json::parse("+5"), Err(()));
    assert_eq!(Json::parse(".5"), Err(()));
    assert_eq!(Json::parse("1e-5"), Err(()));
    assert_eq!(Json::parse("1e+5"), Err(()));
    assert_eq!(Json::parse("[1,-2]"), Err(()));
}

#[test]
fn literals() {
    assert_eq!(Json::parse("true"), Ok(Json::Bool(true)));
    assert_eq!(Json::parse("false"), Ok(Json::Bool(false)));
    assert_eq!(Json::parse("null"), Ok(Json::Null));
}

#[test]
fn array_of_mixed_types() {
    assert_eq!(
        Json::parse("[\"a\", 42, true, null]"),
        Ok(Json::Array(vec![
            Json::string_from("a"),
            number("42"),
            Json::Bool(true),
            Json::Null
        ]))
    );
}

#[test]
fn failure_cases() {
    assert_eq!(Json::parse(""), Err(()));
    assert_eq!(Json::parse("{"), Err(()));
    assert_eq!(Json::parse("[1,2"), Err(()));
    assert_eq!(Json::parse("tru"), Err(()));
}

#[test]
fn malformed_literals_are_refused() {
    assert_eq!(Json::parse("trux"), Err(()));
    assert_eq!(Json::parse("fals"), Err(()));
    assert_eq!(Json::parse("falsy"), Err(()));
    assert_eq!(Json::parse("nul"), Err(()));
    assert_eq!(Json::parse("nil"), Err(()));
    assert_eq!(Json::parse("t"), Err(()));
    assert_eq!(Json::parse("   "), Err(()));
    assert_eq!(Json::parse("x"), Err(()));
    assert_eq!(Json::parse("}"), Err(()));
}

#[test]
fn malformed_containers_are_refused() {
    assert_eq!(Json::parse("["), Err(()));
    assert_eq!(Json::parse("[1"), Err(()));
    assert_eq!(Json::parse("[1,"), Err(()));
    assert_eq!(Json::parse("[1,]"), Err(()));
    assert_eq!(Json::parse("[[1]"), Err(()));
    assert_eq!(Json::parse("[1}"), Err(()));
    assert_eq!(Json::parse("{\"a\""), Err(()));
    assert_eq!(Json::parse("{\"a\":"), Err(()));
    assert_eq!(Json::parse("{\"a\":1"), Err(()));
    assert_eq!(Json::parse("{\"a\":1,"), Err(()));
    assert_eq!(Json::parse("{\"a\":1,}"), Err(()));
    assert_eq!(Json::parse("{\"a\",1}"), Err(()));
    assert_eq!(Json::parse("{\"a\":1]"), Err(()));
    assert_eq!(Json::parse("{a:1}"), Err(()));
    assert_eq!(Json::parse("{\"a\":1,b:2}"), Err(()));
    assert_eq!(Json::parse("{\"a\":{\"b\":1}"), Err(()));
}

#[test]
fn what_follows_the_first_value_is_not_read() {
    assert_eq!(Json::parse("true false"), Ok(Json::Bool(true)));
    assert_eq!(Json::parse("null]"), Ok(Json::Null));
    assert_eq!(Json::parse("[1]]"), Ok(Json::Array(vec![number("1")])));
    assert_eq!(Json::parse("\"a\" \"b\""), Ok(Json::string_from("a")));
    assert_eq!(Json::parse("7 up"), Ok(number("7")));
}

#[test]
fn text_behind_a_scalar_is_passed_over() {
    assert_eq!(
        Json::parse("[true or not, 1 or so, null?, \"a\" b]"),
        Ok(Json::Array(vec![Json::Bool(true), number("1"), Json::Null, Json::string_from("a")]))
    );
    let mut expected = Json::new_object();
    expected.insert("k", Json::Bool(false));
    assert_eq!(Json::parse("{\"k\" key : false!}"), Ok(expected));
}

#[test]
fn a_container_must_be_followed_at_once() {
    assert_eq!(Json::parse("[[1],[2]]").map(|v| v.to_string()), Ok(String::from("[[1],[2]]")));
    assert_eq!(Json::parse("[[1] ,[2]]"), Err(()));
    assert_eq!(Json::parse("{\"a\":[1] }"), Err(()));
    assert_eq!(Json::parse("{\"a\":{\"b\":1} }"), Err(()));
}

#[test]
fn strings_are_read_verbatim() {
    assert_eq!(Json::parse("\"a\\nb\""), Ok(Json::string_from("a\\nb")));
    assert_eq!(Json::parse("\"a\\\"b\""), Ok(Json::string_from("a\\")));
    assert_eq!(Json::parse("\"{[,:]}\""), Ok(Json::string_from("{[,:]}")));
    assert_eq!(Json::parse("\"\""), Ok(Json::string_from("")));
    assert_eq!(Json::parse("\"caf\u{e9} \u{1F600}\""), Ok(Json::string_from("caf\u{e9} \u{1F600}")));
}

#[test]
fn a_string_without_its_closing_quote_runs_to_the_end() {
    assert_eq!(Json::parse("\"abc"), Ok(Json::string_from("abc")));
    assert_eq!(Json::parse("\""), Ok(Json::string_from("")));
    assert_eq!(Json::parse("[\"abc]"), Err(()));
}

#[test]
fn a_key_that_comes_again_replaces_its_value() {
    let mut expected = Json::new_object();
    expected.insert("a", number("3"));
    expected.insert("b", number("2"));
    let read = Json::parse("{\"a\":1,\"b\":2,\"a\":3}");
    assert_eq!(read, Ok(expected));
    assert_eq!(read.unwrap().to_string(), "{\"a\":3,\"b\":2}");
}

#[test]
fn keys_may_stand_on_lines_of_their_own() {
    let read = Json::parse("{\n  \"a\": 1,\n  \"b\": [true,\n null]}");
    let mut expected = Json::new_object();
    expected.insert("a", number("1"));
    expected.insert("b", Json::Array(vec![Json::Bool(true), Json::Null]));
    assert_eq!(read, Ok(expected));
}

#[test]
fn nesting_is_read() {
    let read = Json::parse("[[[1]],{\"a\":{\"b\":[null]}}]");
    assert_eq!(read.map(|v| v.to_string()), Ok(String::from("[[[1]],{\"a\":{\"b\":[null]}}]")));
}

#[test]
fn numerals_are_what_the_float_parser_takes() {
    let letters = ['1', '.', 'e', 'E'];
    let mut texts: Vec<String> = vec![String::from("1")];
    let mut checked = 0;
    for _ in 0..7 {
        let mut longer: Vec<String> = Vec::new();
        for text in &texts {
            let read = Json::parse(text);
            assert_eq!(read.is_ok(), text.parse::<f64>().is_ok(), "{}", text);
            if read.is_ok() {
                assert_eq!(read, Ok(number(text)));
            }
            checked += 1;
            for letter in letters {
                let mut next = text.clone();
                next.push(letter);
                longer.push(next);
            }
        }
        texts = longer;
    }
    assert_eq!(checked, 1 + 4 + 16 + 64 + 256 + 1024 + 4096);
}
