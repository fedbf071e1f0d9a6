use confmerge::diff;
use confmerge::merge;
use confmerge::TreeValue;

fn st(t: &str) -> TreeValue {
    TreeValue::Str(t.to_string())
}

fn num(n: i64) -> TreeValue {
    TreeValue::Num(n)
}

fn arr(items: Vec<TreeValue>) -> TreeValue {
    TreeValue::Arr(items)
}

fn obj(pairs: Vec<(&str, TreeValue)>) -> TreeValue {
    TreeValue::Obj(pairs.into_iter().map(|(k, v)| (k.to_string(), v)).collect())
}

#[test]
fn test_merge_idempotent_scenario() {
    let a = obj(vec![
        ("x", num(1)),
        ("y", obj(vec![("z", num(2))])),
        ("gone", st("old")),
    ]);
    let b = obj(vec![
        ("y", obj(vec![("z", num(3))])),
        ("gone", TreeValue::Null),
        ("w", num(4)),
    ]);

    let mut once = a.clone();
    merge(&mut once, b.clone());

    let mut twice = once.clone();
    merge(&mut twice, b.clone());

    assert_eq!(twice, once);
}

#[test]
fn test_null_tombstone_scenario() {
    let tombstone = obj(vec![("k", TreeValue::Null)]);

    let mut present = obj(vec![("k", num(1)), ("other", num(2))]);
    merge(&mut present, tombstone.clone());
    assert_eq!(present, obj(vec![("other", num(2))]));

    let mut absent = obj(vec![("other", num(2))]);
    merge(&mut absent, tombstone);
    assert_eq!(absent, obj(vec![("other", num(2))]));
}

#[test]
fn test_wholesale_array_replace_scenario() {
    let mut base = arr(vec![num(1), num(2), num(3), num(4)]);
    let overlay = arr(vec![num(9)]);
    merge(&mut base, overlay);
    assert_eq!(base, arr(vec![num(9)]));
}

#[test]
fn test_type_mismatch_diff_merges_back() {
    let a = obj(vec![("field", st("string value"))]);
    let b = obj(vec![("field", num(123))]);

    let patch = diff(&a, &b).unwrap();
    assert_eq!(patch, obj(vec![("field", num(123))]));

    let mut merged_back = a.clone();
    merge(&mut merged_back, patch);
    assert_eq!(merged_back, b);
}

#[test]
fn test_round_trip_scenario() {
    let a = obj(vec![
        ("same", st("kept")),
        ("changed", obj(vec![("inner", num(1))])),
        ("only_a", num(5)),
    ]);
    let b = obj(vec![
        ("same", st("kept")),
        ("changed", obj(vec![("inner", num(2))])),
        ("only_b", st("fresh")),
    ]);

    let patch = diff(&a, &b).unwrap();

    let mut via_patch = a.clone();
    merge(&mut via_patch, patch);

    let mut via_b = a.clone();
    merge(&mut via_b, b);

    assert_eq!(via_patch, via_b);
}
