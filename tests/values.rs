use dyson::access::Ranger;
use dyson::{diff_value, diff_value_detail, parse, Indent, JsonIndexer, JsonPath, Value};
use std::collections::HashSet;

const SAMPLE: [&str; 6] = [
    r#"{"#,
    r#"    "language": "rust","#,
    r#"    "notation": "json","#,
    r#"    "version": 0.1,"#,
    r#"    "keyword": ["rust", "json", "parser", 1, 2, 3]"#,
    r#"}"#,
];

fn key(k: &str) -> JsonIndexer {
    JsonIndexer::ObjInd(k.to_string())
}

fn path(steps: Vec<JsonIndexer>) -> JsonPath {
    JsonPath::from_steps(steps)
}

fn s(text: &str) -> Value {
    Value::String(text.to_string())
}

fn access_sample() {
    let ast_root = parse(&SAMPLE.concat()).unwrap();
    assert_eq!(ast_root.get_key("language"), Some(&s("rust")));
    assert_eq!(ast_root.get_key("version"), Some(&Value::Float("0.1".to_string())));
    let keyword = ast_root.get_key("keyword").unwrap();
    assert_eq!(keyword.get_index(1), Some(&s("json")));
    assert_eq!(
        keyword.get_range(&Ranger { start: 2, end: 6 }).unwrap(),
        &[s("parser"), Value::Integer(1), Value::Integer(2), Value::Integer(3)][..]
    );
    assert_eq!(keyword.get_index(0), Some(&s("rust")));
    let first3 = keyword.get_range(&Ranger { start: 0, end: 3 }).unwrap();
    assert_eq!(first3, &[s("rust"), s("json"), s("parser")][..]);
    assert_eq!(first3[2], s("parser"));
    assert_eq!(ast_root.get_key("get"), None);
    assert_eq!(keyword.get_index(999999999999), None);
    assert_eq!(ast_root.get_index(0), None);
}

#[test]
fn index_test_access_json() {
    access_sample();
}

#[test]
fn ast_test_access_json() {
    access_sample();
}

#[test]
fn test_access_by_json_indexer() {
    let ast_root = parse(&SAMPLE.concat()).unwrap();
    assert_eq!(ast_root.get(&key("language")), Some(&s("rust")));
    assert_eq!(ast_root.get(&key("keyword")).unwrap().get(&JsonIndexer::ArrInd(3)), Some(&Value::Integer(1)));
    assert_eq!(ast_root.get(&JsonIndexer::ArrInd(1)), None);
}

fn access_by_path() {
    let ast_root = parse(r#"{ "key": [ 1, "two", { "foo": "bar" } ] }"#).unwrap();
    let p = path(vec![key("key"), JsonIndexer::ArrInd(2), key("foo")]);
    assert_eq!(ast_root.get_path(&p), Some(&s("bar")));
}

#[test]
fn index_path_test_access_by_path() {
    access_by_path();
}

#[test]
fn path_test_access_by_path() {
    access_by_path();
}

#[test]
fn test_vec_like_interface() {
    let ast_root = parse(r#"{ "key": [ 1, "two", { "foo": "bar" } ] }"#).unwrap();
    let mut p = path(vec![key("key")]);
    assert_eq!(ast_root.get_path(&p), Some(&parse(r#"[ 1, "two", { "foo": "bar" } ]"#).unwrap()));
    p.push(JsonIndexer::ArrInd(0));
    assert_eq!(ast_root.get_path(&p), Some(&parse("1").unwrap()));
    p.pop();
    p.push(JsonIndexer::ArrInd(2));
    assert_eq!(ast_root.get_path(&p), Some(&parse(r#"{ "foo": "bar" }"#).unwrap()));

    assert!(p.starts_with(&path(vec![key("key")])));
    assert!(p.starts_with(&path(vec![key("key"), JsonIndexer::ArrInd(2)])));
    assert!(p.ends_with(&path(vec![JsonIndexer::ArrInd(2)])));
    assert!(p.ends_with(&path(vec![key("key"), JsonIndexer::ArrInd(2)])));
    assert!(!p.ends_with(&path(vec![key("key")])));
    assert_eq!(p.strip_prefix(&path(vec![key("key")])), Some(path(vec![JsonIndexer::ArrInd(2)])));
    assert_eq!(p.strip_suffix(&path(vec![JsonIndexer::ArrInd(2)])), Some(path(vec![key("key")])));
    assert_eq!(p.strip_suffix(&path(vec![key("x")])), None);
}

#[test]
fn test_path_like_interface() {
    let ast_root = parse(r#"{ "key": [ 1, "two", { "foo": "bar" } ] }"#).unwrap();
    let path1 = path(vec![key("key"), JsonIndexer::ArrInd(0)]);
    let path2 = path(vec![key("key"), JsonIndexer::ArrInd(2), key("foo")]);
    assert_eq!((path1.depth(), path2.depth()), (2, 3));
    assert_eq!(JsonPath::lca(&path1, &path2), path(vec![key("key")]));
    assert_eq!(
        ast_root.get_path(&JsonPath::lca(&path1, &path2)),
        Some(&parse(r#"[ 1, "two", { "foo": "bar" } ]"#).unwrap())
    );
    assert_eq!(path1.parent(), Some(path(vec![key("key")])));
    assert_eq!(
        path1.ancestors(),
        vec![path(vec![key("key"), JsonIndexer::ArrInd(0)]), path(vec![key("key")]), path(vec![])]
    );
    let pa = path(vec![key("key")]);
    let pb = path(vec![JsonIndexer::ArrInd(2)]);
    assert_eq!(pa.join(&pb), path(vec![key("key"), JsonIndexer::ArrInd(2)]));
    assert_eq!(ast_root.get_path(&pa.join(&pb)), Some(&parse(r#"{ "foo": "bar" }"#).unwrap()));
}

#[test]
fn path_text_and_split() {
    let p = path(vec![key("key1"), key("key2"), JsonIndexer::ArrInd(3)]);
    assert_eq!(p.to_text(), r#""key1">"key2">3"#);
    assert_eq!(JsonPath::new().to_text(), "");
    let (parent, last) = p.split_last().unwrap();
    assert_eq!(parent, path(vec![key("key1"), key("key2")]));
    assert_eq!(last, JsonIndexer::ArrInd(3));
    assert_eq!(JsonPath::new().split_last(), None);
    assert_eq!(JsonPath::new().parent(), None);
    assert_eq!(p.get(1), Some(&key("key2")));
    assert_eq!(p.get(3), None);
    assert_eq!(p.last(), Some(&JsonIndexer::ArrInd(3)));
}

#[test]
fn test_into_bool_json() {
    let v = parse("true").unwrap();
    assert_eq!(v.get_bool(), Some(true));
    assert!(v.is_true());
    assert!(!v.is_false());
}

#[test]
fn test_into_string_json() {
    let v = parse("\"rust\"").unwrap();
    assert_eq!(v.get_string().map(|x| x.as_str()), Some("rust"));
    assert_eq!(v.get_string(), Some(&"rust".to_string()));
}

#[test]
fn test_into_integer_json() {
    let v = parse("100").unwrap();
    assert_eq!(v.get_integer(), Some(100));
    assert!(v.is_integer() && v.is_number());
}

#[test]
fn test_into_float_json() {
    let v = parse("0.25").unwrap();
    assert_eq!(v.get_float().unwrap().parse::<f64>().unwrap(), 0.25);
    assert!(v.is_float() && v.is_number() && !v.is_integer());
}

#[test]
fn node_types() {
    assert_eq!(parse("{}").unwrap().node_type(), "Object");
    assert_eq!(parse("[]").unwrap().node_type(), "Array");
    assert_eq!(parse("null").unwrap().node_type(), "Null");
    assert_eq!(parse("1.5").unwrap().node_type(), "Float");
    assert!(parse("null").unwrap().is_null());
    assert_eq!(parse("null").unwrap().get_null(), Some(()));
}

#[test]
fn io_test_str_to_json() {
    let r = parse(r#"{"this": "is", "json": "parser"}"#).expect("must be parsed as json");
    assert_eq!(r.get_key("json"), Some(&s("parser")));
}

#[test]
fn io_test_string_to_json() {
    let text = r#"{"this": "is", "json": "parser"}"#.to_string();
    let r = Value::parse(&text).expect("must be parsed as json");
    assert_eq!(r.get_key("json"), Some(&s("parser")));
}

#[test]
fn test_stringify_json() {
    let json: String = [
        r#"{"#,
        r#"    "language": "rust","#,
        r#"    "notation": "json","#,
        r#"    "version": 0.1,"#,
        r#"    "keyword": ["rust", "json", "parser", 1, 2, 3],"#,
        r#"    "dict": {"one": 1, "two": 2, "three": 3}"#,
        r#"}"#,
    ]
    .into_iter()
    .collect();
    let ast_root = parse(&json).unwrap();
    let json2 = ast_root.stringify();
    let ast_root2 = parse(&json2).unwrap();
    let json3 = ast_root2.to_compact_string();
    let ast_root3 = parse(&json3).unwrap();
    assert_eq!(ast_root, ast_root2);
    assert_eq!(ast_root2, ast_root3);
    assert_eq!(ast_root3, ast_root);
}

#[test]
fn compact_and_pretty_text() {
    let v = parse(r#"{"a": [1, "x\ty", null], "b": {}, "c": [], "d": -2.5e3}"#).unwrap();
    assert_eq!(v.to_compact_string(), r#"{"a":[1,"x\ty",null],"b":{},"c":[],"d":-2.5e3}"#);
    assert_eq!(
        v.stringify(),
        "{\n    \"a\": [\n        1,\n        \"x\\ty\",\n        null\n    ],\n    \"b\": {\n\n    },\n    \"c\": [\n\n    ],\n    \"d\": -2.5e3\n}"
    );
    assert_eq!(parse("{}").unwrap().stringify(), "{\n\n}");
    assert_eq!(parse("[]").unwrap().stringify(), "[\n\n]");
    assert_eq!(parse(&v.stringify()).as_ref(), Ok(&v));
    assert_eq!(v.dump_with(Indent::Minified), v.to_compact_string());
    assert_eq!(v.dump_with(Indent::Pretty), v.stringify());
    assert_eq!(Indent::from_level(0), Some(Indent::Minified));
    assert_eq!(Indent::from_level(1), Some(Indent::Pretty));
    assert_eq!(Indent::from_level(2), None);
}

#[test]
fn string_escapes_in_output() {
    let v = Value::String("q\"b\\s/n\nr\rc\u{1}".to_string());
    assert_eq!(v.to_compact_string(), r#""q\"b\\s\/n\nr\rc\u0001""#);
    assert_eq!(parse(&v.to_compact_string()), Ok(v));
    assert_eq!(Value::Integer(i64::MIN).to_compact_string(), "-9223372036854775808");
    assert_eq!(Value::Integer(0).to_compact_string(), "0");
    assert_eq!(Value::Bool(false).to_compact_string(), "false");
}

#[test]
fn round_trip_and_idempotence() {
    let texts = [
        r#"{"language":"rust","version":0.1,"keyword":["rust","json","parser"]}"#,
        r#"[1,-2,3.5e-2,true,false,null,"ù\/",{"":[]}]"#,
        r#""plain""#,
        "-9223372036854775808",
    ];
    for t in texts {
        let v = parse(t).unwrap();
        let compact = v.to_compact_string();
        assert_eq!(parse(&compact).as_ref(), Ok(&v));
        assert_eq!(parse(&v.stringify()).as_ref(), Ok(&v));
        assert_eq!(parse(&compact).unwrap().to_compact_string(), compact);
    }
}

fn diff_pair_set(a: &Value, b: &Value) -> HashSet<(JsonPath, JsonPath)> {
    diff_value(a, b).into_iter().collect()
}

#[test]
fn test_diff_value_json() {
    let json1 = SAMPLE;
    let json2 = [
        r#"{"#,
        r#"    "language": "ruby","#,
        r#"    "notation": "json","#,
        r#"    "version": 0.1,"#,
        r#"    "keyword": ["rust", "json", "tokenizer", 1, 2, 3]"#,
        r#"}"#,
    ];
    let ast_root1 = parse(&json1.concat()).unwrap();
    let ast_root2 = parse(&json2.concat()).unwrap();
    let expected: HashSet<(JsonPath, JsonPath)> = vec![
        (path(vec![key("keyword"), JsonIndexer::ArrInd(2)]), path(vec![key("keyword"), JsonIndexer::ArrInd(2)])),
        (path(vec![key("language")]), path(vec![key("language")])),
    ]
    .into_iter()
    .collect();
    assert_eq!(diff_pair_set(&ast_root1, &ast_root2), expected);
    for (path1, path2) in diff_value(&ast_root1, &ast_root2) {
        assert_ne!(ast_root1.get_path(&path1), ast_root2.get_path(&path2));
    }
}

#[test]
fn test_diff_value_detail_json() {
    let json2 = [
        r#"{"#,
        r#"    "language": "rust","#,
        r#"    "notation": "json","#,
        r#"    "version": 0.1,"#,
        r#"    "keyword": ["ruby", "json", "parser", 1, 2, 3]"#,
        r#"}"#,
    ];
    let ast_root1 = parse(&SAMPLE.concat()).unwrap();
    let ast_root2 = parse(&json2.concat()).unwrap();
    let diff = diff_value_detail(&ast_root1, &ast_root2);
    assert!(diff[0].contains("keyword"));
    assert!(diff[0].contains('0'));
    assert!(diff[0].contains("rust"));
    assert!(diff[0].contains("ruby"));
    assert_eq!(diff, vec![r#""keyword">0: different value "rust" and "ruby""#.to_string()]);
}

#[test]
fn diff_reports_key_mismatch() {
    let a = parse(r#"{"x": 1, "y": 2}"#).unwrap();
    let b = parse(r#"{"x": 1, "z": 2}"#).unwrap();
    assert_eq!(diff_value(&a, &b), vec![(path(vec![key("y")]), path(vec![key("z")]))]);
    assert_eq!(diff_value_detail(&a, &b), vec![r#": different key ObjInd("y") and ObjInd("z")"#.to_string()]);
}

#[test]
fn diff_reflexive_and_key_order() {
    let a = parse(r#"{"b": [1, {"c": null}], "a": "s"}"#).unwrap();
    let a2 = parse(r#"{"b": [1, {"c": null}], "a": "s"}"#).unwrap();
    assert!(diff_value(&a, &a).is_empty());
    let permuted = parse(r#"{"a": "s", "b": [1, {"c": null}]}"#).unwrap();
    assert!(diff_value(&a2, &permuted).is_empty());
    let changed = parse(r#"{"a": "t", "b": [1, {"c": null}]}"#).unwrap();
    assert_eq!(diff_value(&a, &changed), diff_value(&permuted, &changed));
    assert_eq!(diff_value(&changed, &a), diff_value(&changed, &permuted));
    let kinds = parse(r#"[1, 1.0, "1", [], {}]"#).unwrap();
    let kinds2 = parse(r#"[1.0, 1, 1, {}, []]"#).unwrap();
    assert_eq!(diff_value(&kinds, &kinds2).len(), 5);
}

#[test]
fn end_to_end_scenario() {
    let text = r#"{"language":"rust","version":0.1,"keyword":["rust","json","parser"]}"#;
    let v = parse(text).unwrap();
    assert_eq!(v.get_key("keyword").unwrap().get_index(1), Some(&s("json")));
    let w = parse(&text.replace("0.1", "0.2")).unwrap();
    assert_eq!(diff_value(&v, &w), vec![(path(vec![key("version")]), path(vec![key("version")]))]);
}

#[test]
fn diff_walks_only_aligned_members() {
    let a = parse(r#"{"a":0,"b":[1]}"#).unwrap();
    let b = parse(r#"{"b":[1,2],"c":0}"#).unwrap();
    assert_eq!(
        diff_value(&a, &b),
        vec![(path(vec![key("a")]), path(vec![key("b")])), (path(vec![key("b")]), path(vec![key("c")]))]
    );
    assert_eq!(
        diff_value_detail(&a, &b),
        vec![
            r#": different key ObjInd("a") and ObjInd("b")"#.to_string(),
            r#": different key ObjInd("b") and ObjInd("c")"#.to_string()
        ]
    );
}
