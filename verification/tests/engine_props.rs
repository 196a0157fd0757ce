use docdiff::array_checker::find_array_diffs;
use docdiff::diff_types::ArrayDiffDesc;
use docdiff::diff_types::Config;
use docdiff::diff_types::KeyDiff;
use docdiff::diff_types::TypeDiff;
use docdiff::diff_types::ValueDiff;
use docdiff::diff_types::WorkingContext;
use docdiff::diff_types::WorkingFile;
use docdiff::key_checker::find_key_diffs;
use docdiff::paths::format_array_key;
use docdiff::paths::format_key;
use docdiff::render::render;
use docdiff::render::render_display;
use docdiff::render::render_i64;
use docdiff::type_checker::find_type_diffs;
use docdiff::value::get_type;
use docdiff::value::get_value;
use docdiff::value::values_equal;
use docdiff::value::Value;
use docdiff::value::ValueType;
use docdiff::value_checker::find_value_diffs;

fn txt(v: &str) -> Value {
    Value::Text(v.to_string())
}

fn num(n: i64) -> Value {
    Value::Number(n)
}

fn arr(items: Vec<Value>) -> Value {
    Value::Array(items)
}

fn fields(entries: Vec<(&str, Value)>) -> Vec<(String, Value)> {
    entries.into_iter().map(|(k, v)| (k.to_string(), v)).collect()
}

fn obj(entries: Vec<(&str, Value)>) -> Value {
    Value::Object(fields(entries))
}

fn ctx(array_same_order: bool) -> WorkingContext {
    WorkingContext::new(
        WorkingFile::new("a.json".to_owned()),
        WorkingFile::new("b.json".to_owned()),
        Config::new(array_same_order),
    )
}

#[test]
fn scenario_key_only_differences() {
    let a = fields(vec![("x", num(1))]);
    let b = fields(vec![("y", num(1))]);
    let wc = ctx(false);

    let key_diffs = find_key_diffs("", &a, &b, &wc);
    assert_eq!(
        key_diffs,
        vec![
            KeyDiff::new("x".to_owned(), "a.json".to_owned(), "b.json".to_owned()),
            KeyDiff::new("y".to_owned(), "b.json".to_owned(), "a.json".to_owned()),
        ]
    );
    assert!(find_type_diffs("", &a, &b, &wc).is_empty());
    assert!(find_value_diffs("", &a, &b, &wc).is_empty());
    assert!(find_array_diffs("", &a, &b, &wc).is_empty());
}

#[test]
fn scenario_type_and_value_difference() {
    let a = fields(vec![("n", txt("s"))]);
    let b = fields(vec![("n", num(5))]);
    let wc = ctx(false);

    assert_eq!(
        find_type_diffs("", &a, &b, &wc),
        vec![TypeDiff::new(
            "n".to_owned(),
            "string".to_owned(),
            "number".to_owned()
        )]
    );
    assert_eq!(
        find_value_diffs("", &a, &b, &wc),
        vec![ValueDiff::new("n".to_owned(), "s".to_owned(), "5".to_owned())]
    );
    assert!(find_key_diffs("", &a, &b, &wc).is_empty());
    assert!(find_array_diffs("", &a, &b, &wc).is_empty());
}

#[test]
fn scenario_unordered_array_multiset() {
    let a = fields(vec![("arr", arr(vec![num(1), num(1), num(2), num(3)]))]);
    let b = fields(vec![("arr", arr(vec![num(1), num(2), num(2)]))]);
    let wc = ctx(false);

    let diffs = find_array_diffs("", &a, &b, &wc);
    let count = |desc: ArrayDiffDesc, value: &str| {
        diffs
            .iter()
            .filter(|d| d.key == "arr" && d.descriptor == desc && d.value == value)
            .count()
    };

    assert_eq!(diffs.len(), 6);
    assert_eq!(count(ArrayDiffDesc::AHas, "1"), 1);
    assert_eq!(count(ArrayDiffDesc::BMisses, "1"), 1);
    assert_eq!(count(ArrayDiffDesc::AHas, "3"), 1);
    assert_eq!(count(ArrayDiffDesc::BMisses, "3"), 1);
    assert_eq!(count(ArrayDiffDesc::BHas, "2"), 1);
    assert_eq!(count(ArrayDiffDesc::AMisses, "2"), 1);
}

#[test]
fn scenario_ordered_array_positional() {
    let a = fields(vec![("arr", arr(vec![num(1), num(2), num(3)]))]);
    let b = fields(vec![("arr", arr(vec![num(1), num(9), num(3)]))]);
    let wc = ctx(true);

    assert_eq!(
        find_value_diffs("", &a, &b, &wc),
        vec![ValueDiff::new(
            "arr[1]".to_owned(),
            "2".to_owned(),
            "9".to_owned()
        )]
    );
    assert!(find_array_diffs("", &a, &b, &wc).is_empty());
}

fn sample_doc() -> Vec<(String, Value)> {
    fields(vec![
        ("s", txt("text")),
        ("n", num(-12)),
        ("b", Value::Bool(true)),
        ("nothing", Value::Null),
        ("list", arr(vec![num(1), num(1), txt("x")])),
        (
            "inner",
            obj(vec![("k", txt("v")), ("deep", obj(vec![("q", num(7))]))]),
        ),
    ])
}

#[test]
fn idempotence_all_comparators() {
    let a = sample_doc();
    let b = sample_doc();
    for ordered in [false, true] {
        let wc = ctx(ordered);
        assert!(find_key_diffs("", &a, &b, &wc).is_empty());
        assert!(find_type_diffs("", &a, &b, &wc).is_empty());
        assert!(find_value_diffs("", &a, &b, &wc).is_empty());
        assert!(find_array_diffs("", &a, &b, &wc).is_empty());
    }
}

#[test]
fn key_diff_symmetry_on_swapped_runs() {
    let a = fields(vec![
        ("only_a", num(1)),
        ("shared", obj(vec![("only_a_inner", num(2)), ("common", num(3))])),
    ]);
    let b = fields(vec![
        ("only_b", num(1)),
        ("shared", obj(vec![("only_b_inner", num(2)), ("common", num(3))])),
    ]);
    let forward = ctx(false);
    let swapped = WorkingContext::new(
        WorkingFile::new("b.json".to_owned()),
        WorkingFile::new("a.json".to_owned()),
        Config::new(false),
    );

    let d1 = find_key_diffs("", &a, &b, &forward);
    let d2 = find_key_diffs("", &b, &a, &swapped);

    let mut a_side_1: Vec<&KeyDiff> = d1.iter().filter(|d| d.has == "a.json").collect();
    let mut a_side_2: Vec<&KeyDiff> = d2.iter().filter(|d| d.has == "a.json").collect();
    a_side_1.sort_by(|x, y| x.key.cmp(&y.key));
    a_side_2.sort_by(|x, y| x.key.cmp(&y.key));
    assert_eq!(a_side_1, a_side_2);
    assert_eq!(a_side_1.len(), 2);
}

#[test]
fn multiset_conservation_counts() {
    let a = fields(vec![("arr", arr(vec![txt("x"), txt("x"), txt("x"), num(9)]))]);
    let b = fields(vec![("arr", arr(vec![txt("x"), num(8), num(8)]))]);
    let wc = ctx(false);

    let diffs = find_array_diffs("", &a, &b, &wc);
    let count = |desc: ArrayDiffDesc, value: &str| {
        diffs
            .iter()
            .filter(|d| d.descriptor == desc && d.value == value)
            .count()
    };
    for v in ["x", "8", "9"] {
        assert_eq!(count(ArrayDiffDesc::AHas, v), count(ArrayDiffDesc::BMisses, v));
        assert_eq!(count(ArrayDiffDesc::BHas, v), count(ArrayDiffDesc::AMisses, v));
    }
    assert_eq!(count(ArrayDiffDesc::AHas, "x"), 2);
    assert_eq!(count(ArrayDiffDesc::BHas, "8"), 2);
    assert_eq!(count(ArrayDiffDesc::AHas, "9"), 1);
}

#[test]
fn mode_exclusivity() {
    let a = fields(vec![
        ("arr", arr(vec![obj(vec![("in_a", num(1))]), num(2)])),
    ]);
    let b = fields(vec![
        ("arr", arr(vec![obj(vec![("in_b", num(1))]), num(2)])),
    ]);

    let ordered = ctx(true);
    assert!(find_array_diffs("", &a, &b, &ordered).is_empty());

    let unordered = ctx(false);
    let key_diffs = find_key_diffs("", &a, &b, &unordered);
    assert!(key_diffs.iter().all(|d| !d.key.contains('[')));
    assert!(key_diffs.is_empty());
    let type_diffs = find_type_diffs("", &a, &b, &unordered);
    assert!(type_diffs.iter().all(|d| !d.key.contains('[')));
    let value_diffs = find_value_diffs("", &a, &b, &unordered);
    assert!(value_diffs.iter().all(|d| !d.key.contains('[')));
}

#[test]
fn path_depth_separators() {
    let a = fields(vec![(
        "l1",
        obj(vec![(
            "l2",
            obj(vec![("l3", num(1)), ("arr", arr(vec![num(1), num(2)]))]),
        )]),
    )]);
    let b = fields(vec![(
        "l1",
        obj(vec![(
            "l2",
            obj(vec![("l3", num(2)), ("arr", arr(vec![num(1), num(3)]))]),
        )]),
    )]);
    let wc = ctx(true);

    let diffs = find_value_diffs("", &a, &b, &wc);
    assert_eq!(diffs.len(), 2);
    let scalar = diffs.iter().find(|d| d.key == "l1.l2.l3").unwrap();
    assert_eq!(scalar.key.matches('.').count(), 2);
    assert_eq!(scalar.key.matches('[').count(), 0);
    let in_array = diffs.iter().find(|d| d.key == "l1.l2.arr[1]").unwrap();
    assert_eq!(in_array.key.matches('.').count(), 2);
    assert_eq!(in_array.key.matches('[').count(), 1);
}

#[test]
fn path_formatter() {
    assert_eq!(format_key("", "a"), "a");
    assert_eq!(format_key("a", "b"), "a.b");
    assert_eq!(format_key("a.b", "c"), "a.b.c");
    assert_eq!(format_array_key("k", 0), "k[0]");
    assert_eq!(format_array_key("a.k", 12), "a.k[12]");
}

#[test]
fn canonical_render_forms() {
    assert_eq!(render(&Value::Null), "null");
    assert_eq!(render(&Value::Bool(true)), "true");
    assert_eq!(render(&Value::Bool(false)), "false");
    assert_eq!(render(&num(0)), "0");
    assert_eq!(render(&num(1048576)), "1048576");
    assert_eq!(render(&num(-42)), "-42");
    assert_eq!(render_i64(i64::MIN), "-9223372036854775808");
    assert_eq!(render_i64(i64::MAX), "9223372036854775807");
    assert_eq!(render(&txt("plain")), "\"plain\"");
    assert_eq!(render(&txt("say \"hi\"\\\n")), "\"say \\\"hi\\\"\\\\\\n\"");
    assert_eq!(render(&txt("\u{1}\t")), "\"\\u0001\\t\"");
    assert_eq!(render(&arr(vec![])), "[]");
    assert_eq!(render(&arr(vec![num(1), num(2), num(3), num(4)])), "[1,2,3,4]");
    assert_eq!(
        render(&obj(vec![("a", num(1)), ("b", arr(vec![Value::Null, txt("x")]))])),
        "{\"a\":1,\"b\":[null,\"x\"]}"
    );
    assert_eq!(render_display(&txt("raw, not quoted")), "raw, not quoted");
    assert_eq!(render_display(&arr(vec![num(5)])), "[5]");
}

#[test]
fn kind_names() {
    assert_eq!(get_type(&Value::Null), ValueType::Null);
    assert_eq!(get_type(&Value::Bool(true)).kind_name(), "bool");
    assert_eq!(get_type(&num(1)).kind_name(), "number");
    assert_eq!(get_type(&txt("x")).kind_name(), "string");
    assert_eq!(get_type(&arr(vec![])).kind_name(), "array");
    assert_eq!(get_type(&obj(vec![])).kind_name(), "object");
    assert_eq!(get_type(&Value::Null).kind_name(), "null");
}

#[test]
fn deep_equality_semantics() {
    let left = obj(vec![("a", num(1)), ("b", txt("x"))]);
    let right = obj(vec![("b", txt("x")), ("a", num(1))]);
    assert!(values_equal(&left, &right));

    let ordered_one = arr(vec![num(1), num(2)]);
    let ordered_two = arr(vec![num(2), num(1)]);
    assert!(!values_equal(&ordered_one, &ordered_two));

    assert!(!values_equal(&num(1), &txt("1")));
    assert!(values_equal(&Value::Null, &Value::Null));
}

#[test]
fn object_lookup() {
    let f = fields(vec![("a", num(1)), ("bb", num(2))]);
    assert!(values_equal(get_value(&f, "a").unwrap(), &num(1)));
    assert!(values_equal(get_value(&f, "bb").unwrap(), &num(2)));
    assert!(get_value(&f, "b").is_none());
    assert!(get_value(&f, "").is_none());
}

#[test]
fn empty_objects_compare_clean() {
    let a = fields(vec![]);
    let b = fields(vec![]);
    let wc = ctx(false);
    assert!(find_key_diffs("", &a, &b, &wc).is_empty());
    assert!(find_type_diffs("", &a, &b, &wc).is_empty());
    assert!(find_value_diffs("", &a, &b, &wc).is_empty());
    assert!(find_array_diffs("", &a, &b, &wc).is_empty());
}

#[test]
fn ordered_mode_length_mismatch_is_opaque() {
    let a = fields(vec![("arr", arr(vec![num(1), num(2)]))]);
    let b = fields(vec![("arr", arr(vec![num(1), num(2), num(3)]))]);
    let wc = ctx(true);

    let key_diffs = find_key_diffs("", &a, &b, &wc);
    assert!(key_diffs.is_empty());
    let value_diffs = find_value_diffs("", &a, &b, &wc);
    assert_eq!(
        value_diffs,
        vec![ValueDiff::new(
            "arr".to_owned(),
            "[1,2]".to_owned(),
            "[1,2,3]".to_owned()
        )]
    );
}
