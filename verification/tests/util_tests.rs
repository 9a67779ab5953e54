use baseflow::util::random_alpha;
use baseflow::obfus::generate_code;
use baseflow::shape::{simplify_value, JsonShape};

#[test]
fn random_alpha_length_and_alphabet() {
    let s = random_alpha(100, None);
    assert_eq!(s.len(), 100);
    assert!(s.chars().all(|c| c.is_ascii_alphanumeric()));
    let t = random_alpha(100, Some("alpha36"));
    assert_eq!(t.len(), 100);
    assert!(t.chars().all(|c| c.is_ascii_digit() || c.is_ascii_uppercase()));
    assert_eq!(random_alpha(0, None), "");
}

#[test]
fn generate_code_empty_and_decodable() {
    assert_eq!(generate_code(""), "\"\"");
    let out = generate_code("hi");
    let prefix = "((k => String.fromCharCode(...[";
    assert!(out.starts_with(prefix));
    let rest = &out[prefix.len()..];
    let mid = rest.find("].map(x => x ^ k)))(").unwrap();
    let data = &rest[..mid];
    let tail = &rest[mid + "].map(x => x ^ k)))(".len()..];
    let key: u8 = tail.trim_end_matches(')').parse().unwrap();
    assert!(key >= 1);
    let decoded: String = data
        .split(", ")
        .map(|n| (n.parse::<u8>().unwrap() ^ key) as char)
        .collect();
    assert_eq!(decoded, "hi");
}

#[test]
fn simplify_leaves_pass_through() {
    assert!(matches!(simplify_value(&JsonShape::Null), JsonShape::Null));
    assert!(matches!(simplify_value(&JsonShape::Bool(true)), JsonShape::Bool(true)));
    match simplify_value(&JsonShape::Num("1.5".to_string())) {
        JsonShape::Num(s) => assert_eq!(s, "1.5"),
        _ => panic!("number leaf changed shape"),
    }
    match simplify_value(&JsonShape::Str("x".to_string())) {
        JsonShape::Str(s) => assert_eq!(s, "x"),
        _ => panic!("string leaf changed shape"),
    }
}

fn marker(v: &JsonShape) -> String {
    match simplify_value(v) {
        JsonShape::Str(s) => s,
        _ => panic!("expected a marker string"),
    }
}

#[test]
fn simplify_containers_become_markers() {
    assert_eq!(marker(&JsonShape::Arr(vec![])), "[*EM*]");
    assert_eq!(marker(&JsonShape::Obj(vec![])), "[*EM*]");
    let nums = JsonShape::Arr(vec![
        JsonShape::Num("1".to_string()),
        JsonShape::Num("2".to_string()),
    ]);
    assert_eq!(marker(&nums), "[*LI:2*]");
    let nulls = JsonShape::Arr(vec![JsonShape::Null, JsonShape::Null]);
    assert_eq!(marker(&nulls), "[*LI:2*]");
    let objs = JsonShape::Arr(vec![JsonShape::Obj(vec![
        ("a".to_string(), JsonShape::Null),
        ("b".to_string(), JsonShape::Bool(false)),
    ])]);
    assert_eq!(marker(&objs), "[*CO:1:a,b*]");
    let arrs = JsonShape::Arr(vec![JsonShape::Arr(vec![JsonShape::Null])]);
    assert_eq!(marker(&arrs), "[*CO:1*]");
    let skipped = JsonShape::Arr(vec![JsonShape::Null, JsonShape::Str("s".to_string())]);
    assert_eq!(marker(&skipped), "[*LI:2*]");
    let obj = JsonShape::Obj(vec![
        ("alpha".to_string(), JsonShape::Null),
        ("beta".to_string(), JsonShape::Null),
    ]);
    assert_eq!(marker(&obj), "[*RE:alpha,beta*]");
}

#[test]
fn simplify_sorts_object_keys() {
    let obj = JsonShape::Obj(vec![
        ("zeta".to_string(), JsonShape::Null),
        ("beta".to_string(), JsonShape::Bool(true)),
        ("alpha".to_string(), JsonShape::Null),
    ]);
    assert_eq!(marker(&obj), "[*RE:alpha,beta,zeta*]");
    let nested = JsonShape::Arr(vec![JsonShape::Obj(vec![
        ("b".to_string(), JsonShape::Null),
        ("a".to_string(), JsonShape::Null),
    ])]);
    assert_eq!(marker(&nested), "[*CO:1:a,b*]");
}
