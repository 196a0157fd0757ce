use docdiff::array_checker::find_array_diffs;
use docdiff::diff_types::ArrayDiff;
use docdiff::diff_types::ArrayDiffDesc;
use docdiff::diff_types::Config;
use docdiff::diff_types::KeyDiff;
use docdiff::diff_types::TypeDiff;
use docdiff::diff_types::ValueDiff;
use docdiff::diff_types::WorkingContext;
use docdiff::diff_types::WorkingFile;
use docdiff::key_checker::find_key_diffs;
use docdiff::type_checker::find_type_diffs;
use docdiff::value_checker::find_value_diffs;
use docdiff::value::Value;

const FILE_NAME_A: &str = "a.json";
const FILE_NAME_B: &str = "b.json";

fn txt(v: &str) -> Value {
    Value::Text(v.to_string())
}

fn num(n: i64) -> Value {
    Value::Number(n)
}

fn boolean(b: bool) -> Value {
    Value::Bool(b)
}

fn arr(items: Vec<Value>) -> Value {
    Value::Array(items)
}

fn fields(entries: Vec<(&str, Value)>) -> Vec<(String, Value)> {
    entries.into_iter().map(|(k, v)| (k.to_string(), v)).collect()
}

fn obj(entries: Vec<(&str, Value)>) -> Value {
    Value::Object(fields(entries))
}

fn create_test_working_context(array_same_order: bool) -> WorkingContext {
    let config = Config::new(array_same_order);
    let working_file_a = WorkingFile::new(FILE_NAME_A.to_owned());
    let working_file_b = WorkingFile::new(FILE_NAME_B.to_owned());
    WorkingContext::new(working_file_a, working_file_b, config)
}

fn assert_array<T: PartialEq + std::fmt::Debug>(expected: &Vec<T>, result: &Vec<T>) {
    assert_eq!(expected.len(), result.len(), "expected {:?} but found {:?}", expected, result);
    assert!(
        expected.into_iter().all(|item| result.contains(&item)),
        "expected {:?} but found {:?}",
        expected,
        result
    );
}

#[test]
fn key_checker_test_key_checker() {
    let a = fields(vec![
        ("a_has", txt("a_has")),
        ("both_have", txt("both_have")),
        (
            "nested",
            obj(vec![("a_has", txt("a_has")), ("both_have", txt("both_have"))]),
        ),
    ]);
    let b = fields(vec![
        ("b_has", txt("b_has")),
        ("both_have", txt("both_have")),
        (
            "nested",
            obj(vec![("b_has", txt("b_has")), ("both_have", txt("both_have"))]),
        ),
    ]);

    let expected = vec![
        KeyDiff::new(
            "a_has".to_owned(),
            FILE_NAME_A.to_owned(),
            FILE_NAME_B.to_owned(),
        ),
        KeyDiff::new(
            "nested.a_has".to_owned(),
            FILE_NAME_A.to_owned(),
            FILE_NAME_B.to_owned(),
        ),
        KeyDiff::new(
            "b_has".to_owned(),
            FILE_NAME_B.to_owned(),
            FILE_NAME_A.to_owned(),
        ),
        KeyDiff::new(
            "nested.b_has".to_owned(),
            FILE_NAME_B.to_owned(),
            FILE_NAME_A.to_owned(),
        ),
    ];

    let working_context = create_test_working_context(false);

    let diffs = find_key_diffs("", &a, &b, &working_context);

    assert_array(&expected, &diffs);
}

fn type_test_doc_a() -> Vec<(String, Value)> {
    fields(vec![
        ("a_string_b_int", txt("a_string_b_int")),
        ("both_string", txt("both_string")),
        (
            "array_3_a_string_b_int",
            arr(vec![
                txt("string"),
                txt("string2"),
                txt("string3"),
                txt("string4"),
                num(8),
                boolean(true),
            ]),
        ),
        (
            "nested",
            obj(vec![
                ("a_bool_b_string", boolean(true)),
                ("both_number", num(4)),
                (
                    "array_3_a_int_b_bool",
                    arr(vec![
                        txt("string"),
                        txt("string2"),
                        txt("string3"),
                        num(6),
                        num(8),
                        boolean(true),
                    ]),
                ),
            ]),
        ),
    ])
}

fn type_test_doc_b() -> Vec<(String, Value)> {
    fields(vec![
        ("a_string_b_int", num(2)),
        ("both_string", txt("both_string")),
        (
            "array_3_a_string_b_int",
            arr(vec![
                txt("other_string"),
                txt("other_string2"),
                txt("other_string3"),
                num(5),
                num(1),
                boolean(false),
            ]),
        ),
        (
            "nested",
            obj(vec![
                ("a_bool_b_string", txt("a_bool_b_string")),
                ("both_number", num(1)),
                (
                    "array_3_a_int_b_bool",
                    arr(vec![
                        txt("other_string"),
                        txt("other_string2"),
                        txt("other_string3"),
                        boolean(false),
                        num(2),
                        boolean(false),
                    ]),
                ),
            ]),
        ),
    ])
}

#[test]
fn type_checker_test_find_type_diffs_no_array_same_order() {
    let a = type_test_doc_a();
    let b = type_test_doc_b();

    let expected = vec![
        TypeDiff::new(
            "a_string_b_int".to_owned(),
            "string".to_owned(),
            "number".to_owned(),
        ),
        TypeDiff::new(
            "nested.a_bool_b_string".to_owned(),
            "bool".to_owned(),
            "string".to_owned(),
        ),
    ];

    let working_context = create_test_working_context(false);

    let diffs = find_type_diffs("", &a, &b, &working_context);

    assert_array(&expected, &diffs);
}

#[test]
fn type_checker_test_find_type_diffs_array_same_order() {
    let a = type_test_doc_a();
    let b = type_test_doc_b();

    let expected = vec![
        TypeDiff::new(
            "a_string_b_int".to_owned(),
            "string".to_owned(),
            "number".to_owned(),
        ),
        TypeDiff::new(
            "nested.a_bool_b_string".to_owned(),
            "bool".to_owned(),
            "string".to_owned(),
        ),
        TypeDiff::new(
            "array_3_a_string_b_int[3]".to_owned(),
            "string".to_owned(),
            "number".to_owned(),
        ),
        TypeDiff::new(
            "nested.array_3_a_int_b_bool[3]".to_owned(),
            "number".to_owned(),
            "bool".to_owned(),
        ),
    ];

    let working_context = create_test_working_context(true);

    let diffs = find_type_diffs("", &a, &b, &working_context);

    assert_array(&expected, &diffs);
}

fn value_test_doc_a() -> Vec<(String, Value)> {
    fields(vec![
        ("no_diff_string", txt("no_diff_string")),
        ("diff_string", txt("a")),
        ("no_diff_number", txt("no_diff_number")),
        ("diff_number", num(1)),
        ("no_diff_boolean", boolean(true)),
        ("diff_boolean", boolean(true)),
        ("no_diff_array", arr(vec![num(1), num(2), num(3), num(4)])),
        ("diff_array", arr(vec![num(1), num(2), num(3), num(4)])),
        (
            "nested",
            obj(vec![
                ("no_diff_string", txt("no_diff_string")),
                ("diff_string", txt("a")),
                ("no_diff_number", txt("no_diff_number")),
                ("diff_number", num(1)),
                ("no_diff_boolean", boolean(true)),
                ("diff_boolean", boolean(true)),
                ("no_diff_array", arr(vec![num(1), num(2), num(3), num(4)])),
                ("diff_array", arr(vec![num(1), num(2), num(3), num(4)])),
            ]),
        ),
    ])
}

fn value_test_diff_array(ordered_variant: bool) -> Value {
    if ordered_variant {
        arr(vec![num(1), num(2), num(8), num(4)])
    } else {
        arr(vec![num(5), num(6), num(7), num(8)])
    }
}

fn value_test_doc_b(ordered_variant: bool) -> Vec<(String, Value)> {
    fields(vec![
        ("no_diff_string", txt("no_diff_string")),
        ("diff_string", txt("b")),
        ("no_diff_number", txt("no_diff_number")),
        ("diff_number", num(2)),
        ("no_diff_boolean", boolean(true)),
        ("diff_boolean", boolean(false)),
        ("no_diff_array", arr(vec![num(1), num(2), num(3), num(4)])),
        ("diff_array", value_test_diff_array(ordered_variant)),
        (
            "nested",
            obj(vec![
                ("no_diff_string", txt("no_diff_string")),
                ("diff_string", txt("b")),
                ("no_diff_number", txt("no_diff_number")),
                ("diff_number", num(2)),
                ("no_diff_boolean", boolean(true)),
                ("diff_boolean", boolean(false)),
                ("no_diff_array", arr(vec![num(1), num(2), num(3), num(4)])),
                ("diff_array", value_test_diff_array(ordered_variant)),
            ]),
        ),
    ])
}

#[test]
fn value_checker_test_find_value_diffs_no_array_same_order() {
    let a = value_test_doc_a();
    let b = value_test_doc_b(false);

    let expected = vec![
        ValueDiff::new("diff_string".to_owned(), "a".to_owned(), "b".to_owned()),
        ValueDiff::new("diff_number".to_owned(), "1".to_owned(), "2".to_owned()),
        ValueDiff::new(
            "diff_boolean".to_owned(),
            "true".to_owned(),
            "false".to_owned(),
        ),
        ValueDiff::new(
            "diff_array".to_owned(),
            "[1,2,3,4]".to_owned(),
            "[5,6,7,8]".to_owned(),
        ),
        ValueDiff::new(
            "nested.diff_string".to_owned(),
            "a".to_owned(),
            "b".to_owned(),
        ),
        ValueDiff::new(
            "nested.diff_number".to_owned(),
            "1".to_owned(),
            "2".to_owned(),
        ),
        ValueDiff::new(
            "nested.diff_boolean".to_owned(),
            "true".to_owned(),
            "false".to_owned(),
        ),
        ValueDiff::new(
            "nested.diff_array".to_owned(),
            "[1,2,3,4]".to_owned(),
            "[5,6,7,8]".to_owned(),
        ),
    ];

    let working_context = create_test_working_context(false);

    let diffs = find_value_diffs("", &a, &b, &working_context);

    assert_array(&expected, &diffs);
}

#[test]
fn value_checker_test_find_value_diffs_array_same_order() {
    let a = value_test_doc_a();
    let b = value_test_doc_b(true);

    let expected = vec![
        ValueDiff::new("diff_string".to_owned(), "a".to_owned(), "b".to_owned()),
        ValueDiff::new("diff_number".to_owned(), "1".to_owned(), "2".to_owned()),
        ValueDiff::new(
            "diff_boolean".to_owned(),
            "true".to_owned(),
            "false".to_owned(),
        ),
        ValueDiff::new("diff_array[2]".to_owned(), "3".to_owned(), "8".to_owned()),
        ValueDiff::new(
            "nested.diff_string".to_owned(),
            "a".to_owned(),
            "b".to_owned(),
        ),
        ValueDiff::new(
            "nested.diff_number".to_owned(),
            "1".to_owned(),
            "2".to_owned(),
        ),
        ValueDiff::new(
            "nested.diff_boolean".to_owned(),
            "true".to_owned(),
            "false".to_owned(),
        ),
        ValueDiff::new(
            "nested.diff_array[2]".to_owned(),
            "3".to_owned(),
            "8".to_owned(),
        ),
    ];

    let working_context = create_test_working_context(true);

    let diffs = find_value_diffs("", &a, &b, &working_context);

    assert_array(&expected, &diffs);
}

#[test]
fn array_checker_test_find_array_diffs() {
    let a = fields(vec![
        ("no_diff_array", arr(vec![num(1), num(2), num(3), num(4)])),
        ("diff_array", arr(vec![num(1), num(2), num(3), num(4)])),
        (
            "nested",
            obj(vec![
                ("no_diff_array", arr(vec![num(1), num(2), num(3), num(4)])),
                ("diff_array", arr(vec![num(1), num(2), num(3), num(4)])),
            ]),
        ),
    ]);
    let b = fields(vec![
        ("no_diff_array", arr(vec![num(1), num(2), num(3), num(4)])),
        ("diff_array", arr(vec![num(1), num(2), num(8), num(4)])),
        (
            "nested",
            obj(vec![
                ("no_diff_array", arr(vec![num(1), num(2), num(3), num(4)])),
                ("diff_array", arr(vec![num(1), num(2), num(8), num(4)])),
            ]),
        ),
    ]);

    let expected = vec![
        ArrayDiff::new("diff_array".to_owned(), ArrayDiffDesc::AHas, "3".to_owned()),
        ArrayDiff::new(
            "diff_array".to_owned(),
            ArrayDiffDesc::BMisses,
            "3".to_owned(),
        ),
        ArrayDiff::new("diff_array".to_owned(), ArrayDiffDesc::BHas, "8".to_owned()),
        ArrayDiff::new(
            "diff_array".to_owned(),
            ArrayDiffDesc::AMisses,
            "8".to_owned(),
        ),
        ArrayDiff::new(
            "nested.diff_array".to_owned(),
            ArrayDiffDesc::AHas,
            "3".to_owned(),
        ),
        ArrayDiff::new(
            "nested.diff_array".to_owned(),
            ArrayDiffDesc::BMisses,
            "3".to_owned(),
        ),
        ArrayDiff::new(
            "nested.diff_array".to_owned(),
            ArrayDiffDesc::BHas,
            "8".to_owned(),
        ),
        ArrayDiff::new(
            "nested.diff_array".to_owned(),
            ArrayDiffDesc::AMisses,
            "8".to_owned(),
        ),
    ];

    let working_context = create_test_working_context(false);

    let diffs = find_array_diffs("", &a, &b, &working_context);

    assert_array(&expected, &diffs);
}

#[test]
fn test_find_array_diffs_multiple_entries_with_same_value() {
    let a = fields(vec![
        ("no_diff_array", arr(vec![num(1), num(2), num(3), num(4)])),
        ("diff_array", arr(vec![num(1), num(2), num(3), num(4)])),
        (
            "nested",
            obj(vec![
                ("no_diff_array", arr(vec![num(1), num(2), num(3), num(4)])),
                ("diff_array", arr(vec![num(1), num(2), num(3), num(4)])),
            ]),
        ),
    ]);
    let b = fields(vec![
        ("no_diff_array", arr(vec![num(1), num(2), num(3), num(4)])),
        (
            "diff_array",
            arr(vec![
                num(1),
                num(1),
                num(2),
                num(3),
                num(3),
                num(3),
                num(4),
            ]),
        ),
        (
            "nested",
            obj(vec![
                ("no_diff_array", arr(vec![num(1), num(2), num(3), num(4)])),
                (
                    "diff_array",
                    arr(vec![
                        num(1),
                        num(1),
                        num(2),
                        num(3),
                        num(3),
                        num(3),
                        num(4),
                    ]),
                ),
            ]),
        ),
    ]);

    let expected = vec![
        ArrayDiff::new("diff_array".to_owned(), ArrayDiffDesc::BHas, "1".to_owned()),
        ArrayDiff::new("diff_array".to_owned(), ArrayDiffDesc::BHas, "3".to_owned()),
        ArrayDiff::new("diff_array".to_owned(), ArrayDiffDesc::BHas, "3".to_owned()),
        ArrayDiff::new(
            "diff_array".to_owned(),
            ArrayDiffDesc::AMisses,
            "1".to_owned(),
        ),
        ArrayDiff::new(
            "diff_array".to_owned(),
            ArrayDiffDesc::AMisses,
            "3".to_owned(),
        ),
        ArrayDiff::new(
            "diff_array".to_owned(),
            ArrayDiffDesc::AMisses,
            "3".to_owned(),
        ),
        ArrayDiff::new(
            "nested.diff_array".to_owned(),
            ArrayDiffDesc::BHas,
            "1".to_owned(),
        ),
        ArrayDiff::new(
            "nested.diff_array".to_owned(),
            ArrayDiffDesc::BHas,
            "3".to_owned(),
        ),
        ArrayDiff::new(
            "nested.diff_array".to_owned(),
            ArrayDiffDesc::BHas,
            "3".to_owned(),
        ),
        ArrayDiff::new(
            "nested.diff_array".to_owned(),
            ArrayDiffDesc::AMisses,
            "1".to_owned(),
        ),
        ArrayDiff::new(
            "nested.diff_array".to_owned(),
            ArrayDiffDesc::AMisses,
            "3".to_owned(),
        ),
        ArrayDiff::new(
            "nested.diff_array".to_owned(),
            ArrayDiffDesc::AMisses,
            "3".to_owned(),
        ),
    ];

    let working_context = create_test_working_context(false);

    let diffs = find_array_diffs("", &a, &b, &working_context);

    assert_array(&expected, &diffs);
}
