use json_tokens::builder::JsonBuilder;
use json_tokens::error::JsonError;
use json_tokens::json::Json;
use json_tokens::lexer::lex;
use json_tokens::token::{Token, TokenType};
use json_tokens::value::JsonValue;

#[test]
fn from_tokens_is_from_string_of_the_same_text() {
    let text = "{\"a\":{\"b\":2}}";
    assert_eq!(Json::from_tokens(lex(text)).to_string(), Json::from_string(text).to_string());
    assert_eq!(Json::from_string(text).tokens(), &lex(text));
}

#[test]
fn find_gives_the_index_of_the_key() {
    let json = Json::from_string("{\"a\":1,\"b\":{\"c\":2,\"d\":{\"e\":3}}}");
    assert_eq!(json.find_key_token_index(&["a"]), Ok(1));
    assert_eq!(json.find_key_token_index(&["b"]), Ok(5));
    assert_eq!(json.find_key_token_index(&["b", "c"]), Ok(8));
    assert_eq!(json.find_key_token_index(&["b", "d"]), Ok(12));
    assert_eq!(json.find_key_token_index(&["b", "d", "e"]), Ok(15));
    assert_eq!(json.find_key_token_index(&[]), Err(JsonError::NoPathProvided));
    assert_eq!(json.find_key_token_index(&["x"]), Err(JsonError::InvalidPath));
    assert_eq!(json.find_key_token_index(&["c"]), Err(JsonError::InvalidPath));
    assert_eq!(json.find_key_token_index(&["a", "d"]), Ok(12));
    assert_eq!(json.find_key_token_index(&["a", "e"]), Err(JsonError::InvalidPath));
}

#[test]
fn find_goes_by_depth_alone() {
    // A segment is matched by the next key at its depth, whichever object holds it.
    let json = Json::from_string("{\"a\":1,\"b\":{\"c\":2}}");
    assert_eq!(json.find_key_token_index(&["a", "c"]), Ok(8));
    assert_eq!(json.get(&["a", "c"]), Ok(JsonValue::Int(2)));
}

#[test]
fn find_takes_the_first_of_two_keys_at_one_depth() {
    let json = Json::from_string("{\"a\":1,\"a\":2}");
    assert_eq!(json.find_key_token_index(&["a"]), Ok(1));
    assert_eq!(json.get(&["a"]), Ok(JsonValue::Int(1)));
}

#[test]
fn find_passes_over_keys_at_another_depth() {
    let json = Json::from_string("{\"x\":{\"a\":1},\"a\":2}");
    assert_eq!(json.find_key_token_index(&["a"]), Ok(9));
    assert_eq!(json.get(&["a"]), Ok(JsonValue::Int(2)));
    assert_eq!(json.get(&["x", "a"]), Ok(JsonValue::Int(1)));
}

#[test]
fn find_does_not_count_the_outer_pair() {
    // The first and the last token are not counted, whatever they are.
    let json = Json::from_string("\"a\":1,\"b\":2}");
    assert_eq!(json.find_key_token_index(&["a"]), Ok(0));
    assert_eq!(json.find_key_token_index(&["b"]), Ok(4));
}

#[test]
fn find_reports_a_brace_that_closes_too_much() {
    let json = Json::from_string("{},\"a\":1}");
    assert_eq!(json.find_key_token_index(&["a"]), Err(JsonError::InvalidJson));
    assert_eq!(json.get(&["a"]), Err(JsonError::InvalidJson));
}

#[test]
fn find_matches_no_key_shorter_than_its_quotes() {
    let json = Json::from_string("{:1,a:2,ab:3}");
    assert_eq!(json.find_key_token_index(&[""]), Ok(9));
    assert_eq!(json.find_key_token_index(&["a"]), Err(JsonError::InvalidPath));
}

#[test]
fn get_of_each_kind_of_value() {
    let json = Json::from_string(
        "{\"i\":-12,\"f\":2.5,\"t\":true,\"n\":false,\"s\":\"a b\",\"z\":null}",
    );
    assert_eq!(json.get(&["i"]), Ok(JsonValue::Int(-12)));
    assert_eq!(json.get(&["f"]), Ok(JsonValue::Float("2.5".to_string())));
    assert_eq!(json.get(&["t"]), Ok(JsonValue::Bool(true)));
    assert_eq!(json.get(&["n"]), Ok(JsonValue::Bool(false)));
    assert_eq!(json.get(&["s"]), Ok(JsonValue::String("a b".to_string())));
    assert_eq!(json.get(&["z"]), Ok(JsonValue::String("null".to_string())));
}

#[test]
fn get_of_a_container_is_no_leaf() {
    let json = Json::from_string("{\"o\":{\"a\":1},\"l\":[1,2]}");
    assert_eq!(json.get(&["o"]), Err(JsonError::InvalidPath));
    assert_eq!(json.get(&["l"]), Err(JsonError::InvalidPath));
}

#[test]
fn get_where_the_value_is_missing() {
    assert_eq!(Json::from_string("{\"a\":").get(&["a"]), Err(JsonError::InvalidJson));
    assert_eq!(Json::from_string("{\"a\":}").get(&["a"]), Err(JsonError::InvalidJson));
    let json = Json::from_string("{\"a\":,\"b\":1}");
    assert_eq!(json.get(&["a"]), Err(JsonError::InvalidJson));
}

#[test]
fn lookup_gives_unknown_where_get_fails() {
    let json = Json::from_string("{\"a\":1,\"o\":{}}");
    assert_eq!(json.lookup(&["a"]), JsonValue::Int(1));
    assert_eq!(json.lookup(&["b"]), JsonValue::Unknown);
    assert_eq!(json.lookup(&["o"]), JsonValue::Unknown);
    assert_eq!(json.lookup(&[]), JsonValue::Unknown);
}

#[test]
fn key_value_is_an_object_or_not() {
    let json = Json::from_string("{\"a\":1,\"o\":{}}");
    assert_eq!(json.is_key_value_an_object(1), Ok(false));
    assert_eq!(json.is_key_value_an_object(5), Ok(true));
    assert_eq!(json.is_key_value_an_object(7), Ok(false));
    assert_eq!(json.is_key_value_an_object(8), Err(JsonError::InvalidJson));
    assert_eq!(json.is_key_value_an_object(usize::MAX), Err(JsonError::InvalidJson));
}

#[test]
fn insert_value_before_a_sibling_adds_a_separator() {
    let mut json = Json::from_string("{\"a\":1}");
    assert_eq!(json.insert_value(&[], "x", JsonValue::Bool(true)), Ok(()));
    assert_eq!(json.to_string(), "{\"x\":true,\"a\":1}");
    assert_eq!(json.get(&["x"]), Ok(JsonValue::Bool(true)));
    assert_eq!(json.get(&["a"]), Ok(JsonValue::Int(1)));
}

#[test]
fn insert_value_of_each_scalar() {
    let mut json = Json::from_string("{}");
    assert_eq!(json.insert_value(&[], "s", JsonValue::String("a b".to_string())), Ok(()));
    assert_eq!(json.insert_value(&[], "f", JsonValue::Float("2.5".to_string())), Ok(()));
    assert_eq!(json.insert_value(&[], "i", JsonValue::Int(-1)), Ok(()));
    assert_eq!(json.to_string(), "{\"i\":-1,\"f\":2.5,\"s\":\"a b\"}");
    assert_eq!(json.get(&["s"]), Ok(JsonValue::String("a b".to_string())));
    assert_eq!(json.get(&["f"]), Ok(JsonValue::Float("2.5".to_string())));
}

#[test]
fn insert_into_a_nested_object() {
    let mut json = Json::from_string("{\"a\":{\"b\":{}},\"c\":1}");
    assert_eq!(json.insert_value(&["a", "b"], "x", JsonValue::Int(1)), Ok(()));
    assert_eq!(json.to_string(), "{\"a\":{\"b\":{\"x\":1}},\"c\":1}");
    assert_eq!(json.insert_value(&["a"], "y", JsonValue::Int(2)), Ok(()));
    assert_eq!(json.to_string(), "{\"a\":{\"y\":2,\"b\":{\"x\":1}},\"c\":1}");
    assert_eq!(json.get(&["a", "b", "x"]), Ok(JsonValue::Int(1)));
    assert_eq!(json.get(&["a", "y"]), Ok(JsonValue::Int(2)));
}

#[test]
fn insert_object_then_fill_it() {
    let mut json = Json::from_string("{}");
    assert_eq!(json.insert_object(&[], "o"), Ok(()));
    assert_eq!(json.to_string(), "{\"o\":{}}");
    assert_eq!(json.insert_value(&["o"], "k", JsonValue::Int(7)), Ok(()));
    assert_eq!(json.to_string(), "{\"o\":{\"k\":7}}");
    assert_eq!(json.insert_object(&[], "p"), Ok(()));
    assert_eq!(json.to_string(), "{\"p\":{},\"o\":{\"k\":7}}");
}

#[test]
fn insert_twice_gives_two_entries() {
    let mut json = Json::from_string("{}");
    assert_eq!(json.insert_value(&[], "x", JsonValue::Int(1)), Ok(()));
    assert_eq!(json.insert_value(&[], "x", JsonValue::Int(2)), Ok(()));
    assert_eq!(json.to_string(), "{\"x\":2,\"x\":1}");
    assert_eq!(json.get(&["x"]), Ok(JsonValue::Int(2)));
}

#[test]
fn insert_for_a_path_that_leads_nowhere() {
    let mut json = Json::from_string("{\"a\":{}}");
    assert_eq!(json.insert_value(&["b"], "x", JsonValue::Int(1)), Err(JsonError::InvalidPath));
    assert_eq!(json.insert_object(&["a", "b"], "x"), Err(JsonError::InvalidPath));
    assert_eq!(json.to_string(), "{\"a\":{}}");
}

#[test]
fn insert_into_a_scalar_or_an_array() {
    let mut json = Json::from_string("{\"x\":1,\"l\":[1]}");
    assert_eq!(
        json.insert_value(&["x"], "y", JsonValue::Int(1)),
        Err(JsonError::InsertCantInsertIntoValue)
    );
    assert_eq!(json.insert_object(&["l"], "y"), Err(JsonError::InsertCantInsertIntoValue));
    assert_eq!(json.to_string(), "{\"x\":1,\"l\":[1]}");
}

#[test]
fn insert_where_the_value_is_missing() {
    let mut json = Json::from_string("{\"a\":");
    assert_eq!(json.insert_object(&["a"], "y"), Err(JsonError::InvalidJson));
    assert_eq!(json.to_string(), "{\"a\":");
}

#[test]
fn insert_into_a_document_without_an_end() {
    let mut empty = Json::from_tokens(vec![]);
    assert_eq!(empty.insert_object(&[], "o"), Err(JsonError::InvalidJson));
    assert_eq!(empty.to_string(), "");
    // Behind a lone opening brace the run has room, but nothing ends the document.
    let mut open = Json::from_string("{");
    assert_eq!(open.insert_value(&[], "x", JsonValue::Int(1)), Err(JsonError::InvalidJson));
    assert_eq!(open.to_string(), "{\"x\":1");
}

#[test]
fn insert_tokens_without_a_separator() {
    let mut json = Json::from_string("{\"a\":1}");
    let run = vec![Token::no_lexeme(TokenType::LeftBracket), Token::no_lexeme(TokenType::RightBracket)];
    assert_eq!(json.insert_tokens(&[], run, false), Ok(()));
    assert_eq!(json.to_string(), "{[]\"a\":1}");
    let mut open = Json::from_string("{");
    assert_eq!(open.insert_tokens(&[], vec![Token::new("v", TokenType::Value)], false), Ok(()));
    assert_eq!(open.to_string(), "{v");
}

#[test]
fn compact_text_of_tokens_made_by_hand() {
    let json = Json::from_tokens(vec![
        Token::no_lexeme(TokenType::OpeningBrace),
        Token::new("\"k\"", TokenType::Key),
        Token::no_lexeme(TokenType::Assigner),
        Token::no_lexeme(TokenType::LeftBracket),
        Token::new("1", TokenType::Value),
        Token::no_lexeme(TokenType::Separator),
        Token::new("\"a b\"", TokenType::Value),
        Token::no_lexeme(TokenType::RightBracket),
        Token::no_lexeme(TokenType::ClosingBrace),
    ]);
    assert_eq!(json.to_string(), "{\"k\":[1,\"a b\"]}");
}

#[test]
fn compact_text_takes_a_missing_lexeme_for_nothing() {
    let json = Json::from_tokens(vec![
        Token::no_lexeme(TokenType::Key),
        Token::no_lexeme(TokenType::Assigner),
        Token::no_lexeme(TokenType::Value),
        Token::new("ignored", TokenType::Separator),
    ]);
    assert_eq!(json.to_string(), ":,");
}

#[test]
fn round_trip_fails_on_text_that_is_not_settled() {
    let json = Json::from_tokens(vec![Token::new("a b", TokenType::Value)]);
    let once = json.to_string();
    assert_eq!(once, "a b");
    assert_eq!(Json::from_string(&once).to_string(), "");
}

#[test]
fn round_trip_of_documents_read_from_text() {
    let texts = [
        "{}",
        "{\"a\":1}",
        "{ \"a\" : [ 1 , 2 ] , \"b\" : { } }",
        "ab{cd:ef",
        "}}{{::,,",
        "{\"a b\":\"c\td\"}",
        "",
    ];
    for text in texts {
        let once = Json::from_string(text).to_string();
        let tokens = lex(&once);
        assert_eq!(tokens, lex(text));
        assert_eq!(Json::from_tokens(tokens).to_string(), once);
    }
}

#[test]
fn size_estimate_is_one_and_a_half_times_the_weight() {
    assert_eq!(Json::from_tokens(vec![]).estimate_json_size(), 0);
    // Five marks and lexemes of 3 + 1 + 3 + 4 bytes: 16, and half of it again.
    assert_eq!(Json::from_string("{\"a\":1,\"b\":true}").estimate_json_size(), 24);
    // Three marks and a lexeme of 2 bytes in 1 character: 5, and half of it again.
    assert_eq!(Json::from_string("{é:}").estimate_json_size(), 7);
    assert_eq!(Json::from_string("{}{").estimate_json_size(), 4);
}

#[test]
fn pretty_text_of_an_empty_object() {
    assert_eq!(Json::from_string("{}").to_string_format(), Ok("{\n}\n".to_string()));
    assert_eq!(Json::from_tokens(vec![]).to_string_format(), Ok(String::new()));
}

#[test]
fn pretty_text_of_arrays() {
    let json = Json::from_string("{\"a\":[1,2],\"b\":3}");
    assert_eq!(
        json.to_string_format(),
        Ok("{\n\t\"a\": [\n\t\t1,\n\t\t2\n\t],\n\t\"b\": 3\n}\n".to_string())
    );
    let nested = Json::from_string("{\"a\":[[1],2]}");
    assert_eq!(
        nested.to_string_format(),
        Ok("{\n\t\"a\": [\n\t\t[\n\t\t\t1\n\t\t],\n\t\t2\n\t]\n}\n".to_string())
    );
}

#[test]
fn pretty_text_of_deeper_nesting() {
    let json = Json::from_string("{\"a\":{\"b\":{\"c\":\"x y\"}},\"d\":false}");
    assert_eq!(
        json.to_string_format(),
        Ok("{\n\t\"a\": {\n\t\t\"b\": {\n\t\t\t\"c\": \"x y\"\n\t\t}\n\t},\n\t\"d\": false\n}\n"
            .to_string())
    );
}

#[test]
fn pretty_text_of_a_value_without_a_follower() {
    let json = Json::from_tokens(vec![Token::new("1", TokenType::Value)]);
    assert_eq!(json.to_string_format(), Ok("1\n".to_string()));
    let bracket = Json::from_tokens(vec![Token::no_lexeme(TokenType::LeftBracket)]);
    assert_eq!(bracket.to_string_format(), Ok("[\n".to_string()));
}

#[test]
fn pretty_text_fails_where_something_stays_open() {
    assert_eq!(Json::from_string("{{}").to_string_format(), Err(JsonError::InvalidJson));
    assert_eq!(Json::from_string("{[]").to_string_format(), Err(JsonError::InvalidJson));
    assert_eq!(Json::from_string("{\"a\":{}").to_string_format(), Err(JsonError::InvalidJson));
}

#[test]
fn pretty_text_fails_where_too_much_is_closed() {
    assert_eq!(Json::from_string("}").to_string_format(), Err(JsonError::InvalidJson));
    assert_eq!(Json::from_string("{}}").to_string_format(), Err(JsonError::InvalidJson));
    assert_eq!(Json::from_string("{}]{").to_string_format(), Err(JsonError::InvalidJson));
}

#[test]
fn pretty_text_goes_on_where_nothing_closes_at_the_end() {
    assert_eq!(Json::from_string("{").to_string_format(), Ok("{\n".to_string()));
    assert_eq!(Json::from_string("{\"a\":").to_string_format(), Ok("{\n\t\"a\": ".to_string()));
}

#[test]
fn builder_makes_the_tokens_of_the_text() {
    let json = JsonBuilder::new()
        .value("a", JsonValue::from(1))
        .object("o")
        .value("s", JsonValue::from("x y"))
        .value("t", JsonValue::from(true))
        .object_end()
        .value("f", JsonValue::Float("0.5".to_string()))
        .build();
    let text = "{\"a\":1,\"o\":{\"s\":\"x y\",\"t\":true},\"f\":0.5}";
    assert_eq!(json.to_string(), text);
    assert_eq!(json.tokens(), &lex(text));
    assert_eq!(json.get(&["o", "s"]), Ok(JsonValue::String("x y".to_string())));
}

#[test]
fn builder_of_an_empty_document() {
    assert_eq!(JsonBuilder::new().build().to_string(), "{}");
    assert_eq!(JsonBuilder::new().object("o").object_end().build().to_string(), "{\"o\":{}}");
    assert_eq!(
        JsonBuilder::new().object("o").object_end().object("p").object_end().build().to_string(),
        "{\"o\":{},\"p\":{}}"
    );
}

#[test]
fn builder_adds_a_separator_only_where_one_is_needed() {
    let mut builder = JsonBuilder::new();
    builder.add_separator_if_needed();
    assert_eq!(builder.build().to_string(), "{}");
    let mut filled = JsonBuilder::new().value("a", JsonValue::Int(1));
    filled.add_separator_if_needed();
    assert_eq!(filled.build().to_string(), "{\"a\":1,}");
}

#[test]
fn tokens_come_back_after_insertions() {
    let mut json = Json::from_string("{\"a\":{\"b\":1},\"c\":[1,2]}");
    assert_eq!(json.insert_value(&["a"], "x y", JsonValue::String("p q".to_string())), Ok(()));
    assert_eq!(json.insert_object(&[], "o"), Ok(()));
    assert_eq!(json.insert_value(&["o"], "n", JsonValue::Int(-5)), Ok(()));
    let text = json.to_string();
    assert_eq!(text, "{\"o\":{\"n\":-5},\"a\":{\"x y\":\"p q\",\"b\":1},\"c\":[1,2]}");
    assert_eq!(&lex(&text), json.tokens());
    assert_eq!(
        json.to_string_format(),
        Ok("{\n\t\"o\": {\n\t\t\"n\": -5\n\t},\n\t\"a\": {\n\t\t\"x y\": \"p q\",\n\t\t\"b\": 1\n\t},\n\t\"c\": [\n\t\t1,\n\t\t2\n\t]\n}\n"
            .to_string())
    );
}

#[test]
fn insertion_of_a_key_with_a_mark_does_not_come_back() {
    let mut json = Json::from_string("{}");
    assert_eq!(json.insert_value(&[], "a:b", JsonValue::Int(1)), Ok(()));
    let text = json.to_string();
    assert_eq!(text, "{\"a:b\":1}");
    assert_ne!(&lex(&text), json.tokens());
}
