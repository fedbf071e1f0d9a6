use confmerge::diff;
use confmerge::merge;
use confmerge::TreeValue;

fn st(t: &str) -> TreeValue {
    TreeValue::Str(t.to_string())
}

fn num(n: i64) -> TreeValue {
    TreeValue::Num(n)
}

fn arr(items: Vec<TreeValue>) -> TreeValue {
    TreeValue::Arr(items)
}

fn obj(pairs: Vec<(&str, TreeValue)>) -> TreeValue {
    TreeValue::Obj(pairs.into_iter().map(|(k, v)| (k.to_string(), v)).collect())
}

fn verify_diff_merge_equality(a: &TreeValue, b: &TreeValue) {
    let mut a1 = a.clone();
    let mut a2 = a.clone();
    if let Some(c) = diff(a, b) {
        merge(&mut a1, b.clone());
        merge(&mut a2, c);
        assert_eq!(a1, a2, "合并结果不一致: merge(a, b) != merge(a, diff(a, b))");
    } else {
        assert_eq!(a, b, "diff return None but a != b");
    }
}

#[test]
fn test_diff_basic() {
    let a = obj(vec![
        ("title", st("This is a title")),
        (
            "person",
            obj(vec![
                ("firstName", st("John")),
                ("lastName", st("Doe")),
                ("shortName", st("John")),
            ]),
        ),
        ("cities", arr(vec![st("london"), st("paris")])),
    ]);

    let b = obj(vec![
        ("title", st("This is another title")),
        (
            "person",
            obj(vec![("firstName", st("Jane")), ("lastName", TreeValue::Null)]),
        ),
        ("cities", arr(vec![st("colombo")])),
    ]);

    let c = diff(&a, &b).unwrap();

    let expected_diff = obj(vec![
        ("title", st("This is another title")),
        (
            "person",
            obj(vec![("firstName", st("Jane")), ("lastName", TreeValue::Null)]),
        ),
        ("cities", arr(vec![st("colombo")])),
    ]);

    assert_eq!(c, expected_diff);
    verify_diff_merge_equality(&a, &b);
}

#[test]
fn test_diff_nested_objects() {
    let a = obj(vec![
        (
            "nested",
            obj(vec![
                ("field1", st("value1")),
                (
                    "field2",
                    obj(vec![("subfield1", num(123)), ("subfield2", st("abc"))]),
                ),
            ]),
        ),
        ("array", arr(vec![num(1), num(2), num(3)])),
        ("simple", st("simple_value")),
    ]);

    let b = obj(vec![
        (
            "nested",
            obj(vec![
                ("field1", st("value1")),
                (
                    "field2",
                    obj(vec![("subfield1", num(456)), ("subfield2", st("abc"))]),
                ),
            ]),
        ),
        ("array", arr(vec![num(4), num(5), num(6)])),
        ("simple", st("simple_value")),
        ("new_field", st("new_value")),
    ]);

    let c = diff(&a, &b).unwrap();

    let expected_diff = obj(vec![
        (
            "nested",
            obj(vec![("field2", obj(vec![("subfield1", num(456))]))]),
        ),
        ("array", arr(vec![num(4), num(5), num(6)])),
        ("new_field", st("new_value")),
    ]);

    assert_eq!(c, expected_diff);
    verify_diff_merge_equality(&a, &b);
}

#[test]
fn test_diff_null_values() {
    let a = obj(vec![
        ("keep", st("value")),
        ("delete", st("to be deleted")),
        (
            "nested",
            obj(vec![
                ("keep", st("nested value")),
                ("delete", st("nested to be deleted")),
            ]),
        ),
    ]);

    let b = obj(vec![
        ("keep", st("value")),
        ("delete", TreeValue::Null),
        (
            "nested",
            obj(vec![("keep", st("nested value")), ("delete", TreeValue::Null)]),
        ),
    ]);

    let c = diff(&a, &b).unwrap();

    let expected_diff = obj(vec![
        ("delete", TreeValue::Null),
        ("nested", obj(vec![("delete", TreeValue::Null)])),
    ]);

    assert_eq!(c, expected_diff);
    verify_diff_merge_equality(&a, &b);
}

#[test]
fn test_diff_no_changes() {
    let a = obj(vec![(
        "level1",
        obj(vec![("level2", obj(vec![("level3", st("value"))]))]),
    )]);

    let b = obj(vec![(
        "level1",
        obj(vec![("level2", obj(vec![("level3", st("value"))]))]),
    )]);

    let c = diff(&a, &b);
    assert_eq!(c, None, "没有差异时应返回 None");
    verify_diff_merge_equality(&a, &b);
}

#[test]
fn test_diff_type_changes() {
    let a = obj(vec![("field", st("string value"))]);

    let b = obj(vec![("field", num(123))]);

    let c = diff(&a, &b).unwrap();
    let expected_diff = obj(vec![("field", num(123))]);

    assert_eq!(c, expected_diff);
    verify_diff_merge_equality(&a, &b);
}

#[test]
fn test_diff_arrays() {
    let a = obj(vec![(
        "array",
        arr(vec![num(1), obj(vec![("key", st("value"))]), num(3)]),
    )]);

    let b = obj(vec![(
        "array",
        arr(vec![num(1), obj(vec![("key", st("new_value"))]), num(3)]),
    )]);

    let c = diff(&a, &b).unwrap();
    let expected_diff = obj(vec![(
        "array",
        arr(vec![num(1), obj(vec![("key", st("new_value"))]), num(3)]),
    )]);

    assert_eq!(c, expected_diff);
    verify_diff_merge_equality(&a, &b);
}

#[test]
fn test_diff_primitives() {
    let a = num(42);
    let b = num(99);

    let c = diff(&a, &b).unwrap();
    assert_eq!(c, b);
    verify_diff_merge_equality(&a, &b);

    let a = st("old value");
    let b = st("new value");

    let c = diff(&a, &b).unwrap();
    assert_eq!(c, b);
    verify_diff_merge_equality(&a, &b);

    let a = TreeValue::Bool(true);
    let b = TreeValue::Bool(false);

    let c = diff(&a, &b).unwrap();
    assert_eq!(c, b);
    verify_diff_merge_equality(&a, &b);

    let a = num(42);
    let b = st("42");

    let c = diff(&a, &b).unwrap();
    assert_eq!(c, b);
    verify_diff_merge_equality(&a, &b);
}

#[test]
fn test_diff_add_fields() {
    let a = obj(vec![("existing", st("value"))]);

    let b = obj(vec![
        ("existing", st("value")),
        ("new_field", st("new value")),
        ("new_object", obj(vec![("nested", st("nested value"))])),
    ]);

    let c = diff(&a, &b).unwrap();
    let expected_diff = obj(vec![
        ("new_field", st("new value")),
        ("new_object", obj(vec![("nested", st("nested value"))])),
    ]);

    assert_eq!(c, expected_diff);
    verify_diff_merge_equality(&a, &b);
}

#[test]
fn test_diff_complex_scenario() {
    let a = obj(vec![
        (
            "level1",
            obj(vec![
                (
                    "level2",
                    obj(vec![
                        ("keep", st("keep value")),
                        ("change", st("old value")),
                        ("delete", st("delete value")),
                    ]),
                ),
                ("array", arr(vec![num(1), num(2), num(3)])),
            ]),
        ),
        ("primitive", num(42)),
        ("to_be_deleted", st("will be deleted")),
        ("same", st("unchanged")),
    ]);

    let b = obj(vec![
        (
            "level1",
            obj(vec![
                (
                    "level2",
                    obj(vec![
                        ("keep", st("keep value")),
                        ("change", st("new value")),
                        ("add", st("new field")),
                        ("delete", TreeValue::Null),
                    ]),
                ),
                ("array", arr(vec![num(4), num(5), num(6)])),
            ]),
        ),
        ("primitive", st("changed to string")),
        ("to_be_deleted", TreeValue::Null),
        ("same", st("unchanged")),
        ("new_top_level", obj(vec![("nested", st("value"))])),
    ]);

    let c = diff(&a, &b).unwrap();

    let mut a1 = a.clone();
    let mut a2 = a.clone();

    merge(&mut a1, b.clone());
    merge(&mut a2, c);

    assert_eq!(a1, a2, "复杂场景合并结果不一致");
}

#[test]
fn test_diff_top_level_array() {
    let a = arr(vec![num(1), num(2), num(3)]);
    let b = arr(vec![num(1), num(2), num(4)]);

    let c = diff(&a, &b).unwrap();
    assert_eq!(c, b, "不同的数组应完全替换");
    verify_diff_merge_equality(&a, &b);

    let a = arr(vec![num(1), num(2), num(3)]);
    let b = arr(vec![num(1), num(2), num(3)]);

    let c = diff(&a, &b);
    assert_eq!(c, None, "相同的数组应返回 None");
    verify_diff_merge_equality(&a, &b);
}

#[test]
fn test_diff_nested_arrays() {
    let a = arr(vec![
        obj(vec![
            ("id", num(1)),
            ("tags", arr(vec![st("important"), st("urgent")])),
        ]),
        obj(vec![("id", num(2)), ("tags", arr(vec![st("normal")]))]),
    ]);

    let b = arr(vec![
        obj(vec![
            ("id", num(1)),
            ("tags", arr(vec![st("important"), st("postponed")])),
        ]),
        obj(vec![("id", num(3)), ("tags", arr(vec![st("new")]))]),
    ]);

    let c = diff(&a, &b).unwrap();
    assert_eq!(c, b, "嵌套数组应完全替换");
    verify_diff_merge_equality(&a, &b);
}

#[test]
fn test_diff_array_add_elements() {
    let a = arr(vec![num(1), num(2)]);
    let b = arr(vec![num(1), num(2), num(3), num(4)]);

    let c = diff(&a, &b).unwrap();
    assert_eq!(c, b, "添加元素的数组应完全替换");
    verify_diff_merge_equality(&a, &b);
}

#[test]
fn test_diff_array_remove_elements() {
    let a = arr(vec![num(1), num(2), num(3), num(4)]);
    let b = arr(vec![num(1), num(4)]);

    let c = diff(&a, &b).unwrap();
    assert_eq!(c, b, "删除元素的数组应完全替换");
    verify_diff_merge_equality(&a, &b);
}

#[test]
fn test_diff_array_reorder_elements() {
    let a = arr(vec![num(1), num(2), num(3)]);
    let b = arr(vec![num(3), num(1), num(2)]);

    let c = diff(&a, &b).unwrap();
    assert_eq!(c, b, "重新排序的数组应完全替换");
    verify_diff_merge_equality(&a, &b);
}

#[test]
fn test_diff_mixed_types() {
    let a = obj(vec![("data", arr(vec![num(1), num(2), num(3)]))]);
    let b = arr(vec![
        obj(vec![("data", num(1))]),
        obj(vec![("data", num(2))]),
    ]);

    let c = diff(&a, &b).unwrap();
    assert_eq!(c, b, "类型变化应完全替换");
    verify_diff_merge_equality(&a, &b);

    let a = arr(vec![num(1), num(2), num(3)]);
    let b = obj(vec![("0", num(1)), ("1", num(2)), ("2", num(3))]);

    let c = diff(&a, &b).unwrap();
    assert_eq!(c, b, "数组到对象的变化应完全替换");
    verify_diff_merge_equality(&a, &b);
}

#[test]
fn test_diff_empty_arrays() {
    let a = arr(vec![]);
    let b = arr(vec![num(1), num(2), num(3)]);

    let c = diff(&a, &b).unwrap();
    assert_eq!(c, b, "空数组到非空数组应完全替换");
    verify_diff_merge_equality(&a, &b);

    let a = arr(vec![num(1), num(2), num(3)]);
    let b = arr(vec![]);

    let c = diff(&a, &b).unwrap();
    assert_eq!(c, b, "非空数组到空数组应完全替换");
    verify_diff_merge_equality(&a, &b);

    let a = arr(vec![]);
    let b = arr(vec![]);

    let c = diff(&a, &b);
    assert_eq!(c, None, "两个空数组应返回 None");
    verify_diff_merge_equality(&a, &b);
}
