use lexical_analysis::err::{KeySymbolKind, LexicalAnalysisErr};
use lexical_analysis::keep_for_use::{keepwords_deserialization, Keep};
use lexical_analysis::{code_split, lexical_analysis, words_match, KeyType};

fn keep_json() -> &'static str {
    r#"{"int":"INT","while":"WHILE","if":"IF","else":"ELSE","return":"RETURN","=":"ASSIGN","+":"PLUS","-":"MINUS","*":"STAR","/":"SLASH","<":"LT","<=":"LE",">":"GT",">=":"GE","==":"EQ","!=":"NE",",":"COMMA",";":"SEMI","(":"LP",")":"RP","{":"LB","}":"RB"}"#
}

fn kw(s: &str) -> KeyType {
    KeyType::KeepWord(String::from(s))
}

fn id(s: &str) -> KeyType {
    KeyType::Identifier(String::from(s))
}

fn val(n: i32) -> KeyType {
    KeyType::Value(n)
}

#[test]
fn it_works_0() {
    let tokens = lexical_analysis(
        " int main()
                {
                    return 1;
                }",
        keep_json(),
    )
    .unwrap();
    assert_eq!(
        tokens,
        vec![
            kw("INT"),
            id("main"),
            kw("LP"),
            kw("RP"),
            kw("LB"),
            kw("RETURN"),
            val(1),
            kw("SEMI"),
            kw("RB"),
        ]
    );
}

#[test]
fn it_works_1() {
    let tokens = lexical_analysis(
        " int main()
                {
                    int a=10,b=20,max;
                    if (a>=b)
                         max=a;
                    else max=b;
                    return 1;
                }",
        keep_json(),
    )
    .unwrap();
    assert_eq!(
        tokens,
        vec![
            kw("INT"),
            id("main"),
            kw("LP"),
            kw("RP"),
            kw("LB"),
            kw("INT"),
            id("a"),
            kw("ASSIGN"),
            val(10),
            kw("COMMA"),
            id("b"),
            kw("ASSIGN"),
            val(20),
            kw("COMMA"),
            id("max"),
            kw("SEMI"),
            kw("IF"),
            kw("LP"),
            id("a"),
            kw("GE"),
            id("b"),
            kw("RP"),
            id("max"),
            kw("ASSIGN"),
            id("a"),
            kw("SEMI"),
            kw("ELSE"),
            id("max"),
            kw("ASSIGN"),
            id("b"),
            kw("SEMI"),
            kw("RETURN"),
            val(1),
            kw("SEMI"),
            kw("RB"),
        ]
    );
}

#[test]
fn it_works_2() {
    let r = lexical_analysis(
        " int while if else return
                =
                + - * /
                < <= > >= == !=
                # @",
        keep_json(),
    );
    assert!(
        matches!(r, Err(LexicalAnalysisErr::UndefinedKeywords(KeySymbolKind::SingleSymbol, ref s)) if s == "#")
    );
}

#[test]
fn code_split_works() {
    let code = " int main()
        {
            int a=10,b=20,max;
            if (a>=b)
            max=a;
            else max=>b;
            return 1;
            @
        }";

    let keep = keepwords_deserialization(keep_json()).unwrap();
    let words = code_split(String::from(code), keep.keep_complex_symbol).unwrap();
    let expected = vec![
        "int", "main", "(", ")", "{", "int", "a", "=", "10", ",", "b", "=", "20", ",", "max", ";",
        "if", "(", "a", ">=", "b", ")", "max", "=", "a", ";", "else", "max", "=", ">", "b", ";",
        "return", "1", ";", "@", "}",
    ];
    let expected: Vec<String> = expected.into_iter().map(String::from).collect();
    assert_eq!(words, expected);
}

#[test]
fn maximal_munch_prefers_pair() {
    let tokens = lexical_analysis("a<=b", r#"{"<=":"LE","=":"ASSIGN","<":"LT"}"#).unwrap();
    assert_eq!(tokens, vec![id("a"), kw("LE"), id("b")]);
}

#[test]
fn keyword_identifier_boundary() {
    let tokens = lexical_analysis("if iffy", r#"{"if":"IF"}"#).unwrap();
    assert_eq!(tokens, vec![kw("IF"), id("iffy")]);
}

#[test]
fn integer_fallback() {
    let tokens = lexical_analysis("42", r#"{"if":"IF"}"#).unwrap();
    assert_eq!(tokens, vec![val(42)]);
    let tokens = lexical_analysis("42x", r#"{"if":"IF"}"#).unwrap();
    assert_eq!(tokens, vec![id("42x")]);
}

#[test]
fn integer_bounds_and_zeroes() {
    let tokens = lexical_analysis("2147483647 0 007 _1", r#"{}"#).unwrap();
    assert_eq!(tokens, vec![val(2147483647), val(0), val(7), id("_1")]);
    let tokens = lexical_analysis("2147483648", r#"{}"#).unwrap();
    assert_eq!(tokens, vec![id("2147483648")]);
}

#[test]
fn undefined_single_symbol() {
    let r = lexical_analysis("@", r#"{"if":"IF"}"#);
    assert!(
        matches!(r, Err(LexicalAnalysisErr::UndefinedKeywords(KeySymbolKind::SingleSymbol, ref s)) if s == "@")
    );
}

#[test]
fn undefined_complex_symbol() {
    let keep = Keep { keep_words: Vec::new(), keep_symbol: Vec::new(), keep_complex_symbol: Vec::new() };
    let r = words_match(vec![String::from("<=")], keep);
    assert!(
        matches!(r, Err(LexicalAnalysisErr::UndefinedKeywords(KeySymbolKind::ComplexSymbol, ref s)) if s == "<=")
    );
}

#[test]
fn two_char_symbol_recognized_inside_longer_run() {
    let tokens = lexical_analysis("a<>=b", r#"{">=":"GE","<":"LT"}"#).unwrap();
    assert_eq!(tokens, vec![id("a"), kw("LT"), kw("GE"), id("b")]);
}

#[test]
fn end_to_end_scenario_fails_on_first_unmapped_symbol() {
    let table = r#"{ "int":"INT", "return":"RETURN", "=":"ASSIGN", ";":"SEMI", "(":"LP", ")":"RP" }"#;
    let r = lexical_analysis("int main(){return 1;}", table);
    assert!(
        matches!(r, Err(LexicalAnalysisErr::UndefinedKeywords(KeySymbolKind::SingleSymbol, ref s)) if s == "{")
    );
}

#[test]
fn end_to_end_scenario_succeeds_without_braces() {
    let table = r#"{ "int":"INT", "return":"RETURN", "=":"ASSIGN", ";":"SEMI", "(":"LP", ")":"RP" }"#;
    let tokens = lexical_analysis("int main ( ) return 1 ;", table).unwrap();
    assert_eq!(
        tokens,
        vec![kw("INT"), id("main"), kw("LP"), kw("RP"), kw("RETURN"), val(1), kw("SEMI")]
    );
}

#[test]
fn order_preservation_concrete() {
    let words = code_split(String::from(" a+b c\t<= d \n"), Vec::new()).unwrap();
    assert_eq!(
        words,
        vec![
            String::from("a"),
            String::from("+"),
            String::from("b"),
            String::from("c"),
            String::from("<"),
            String::from("="),
            String::from("d"),
        ]
    );
    let joined: String = words.concat();
    assert_eq!(joined, "a+bc<=d");
}

#[test]
fn partition_placement_concrete() {
    let keep = keepwords_deserialization(r#"{"if":"IF","<=":"LE","<":"LT","":"EMPTY","a_1":"A1"}"#)
        .unwrap();
    let words: Vec<(String, String)> = keep.keep_words;
    let single: Vec<(String, String)> = keep.keep_symbol;
    let complex: Vec<(String, String)> = keep.keep_complex_symbol;
    let has = |v: &Vec<(String, String)>, k: &str, s: &str| {
        v.iter().any(|e| e.0 == k && e.1 == s)
    };
    assert!(has(&words, "if", "IF"));
    assert!(has(&words, "", "EMPTY"));
    assert!(has(&words, "a_1", "A1"));
    assert!(has(&complex, "<=", "LE"));
    assert!(has(&single, "<", "LT"));
    assert_eq!(words.len(), 3);
    assert_eq!(complex.len(), 1);
    assert_eq!(single.len(), 1);
}

#[test]
fn classification_idempotent_concrete() {
    let make_keep = || Keep {
        keep_words: vec![(String::from("if"), String::from("IF"))],
        keep_symbol: vec![(String::from("<"), String::from("LT"))],
        keep_complex_symbol: vec![(String::from("<="), String::from("LE"))],
    };
    let make_words = || vec![String::from("if"), String::from("x"), String::from("<=")];
    let first = words_match(make_words(), make_keep()).unwrap();
    let second = words_match(make_words(), make_keep()).unwrap();
    assert_eq!(first, second);
    assert_eq!(first, vec![kw("IF"), id("x"), kw("LE")]);
}

#[test]
fn configuration_errors() {
    let r = lexical_analysis("x", "not json");
    assert!(matches!(r, Err(LexicalAnalysisErr::FailToSerializationKeyWordsJson(_))));
    let r = lexical_analysis("x", "[1,2]");
    assert!(matches!(r, Err(LexicalAnalysisErr::FailToReadKeyWordsJsonTree)));
    let r = lexical_analysis("x", r#"{"if":3}"#);
    assert!(matches!(r, Err(LexicalAnalysisErr::SymbolOfKeywordsIsNotString)));
}

#[test]
fn empty_table_and_fallbacks() {
    let tokens = lexical_analysis("x 1 y2", r#"{}"#).unwrap();
    assert_eq!(tokens, vec![id("x"), val(1), id("y2")]);
    let tokens = lexical_analysis("", r#"{}"#).unwrap();
    assert_eq!(tokens, Vec::<KeyType>::new());
}

#[test]
fn duplicate_keys_keep_last_value() {
    let tokens = lexical_analysis("if", r#"{"if":"FIRST","if":"SECOND"}"#).unwrap();
    assert_eq!(tokens, vec![kw("SECOND")]);
}
