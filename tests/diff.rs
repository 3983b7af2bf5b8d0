use float_cmp::{ApproxEq, F64Margin};
use json_diff::{
    diff, CompareMode, Config, FloatCompareMode, Json, Key, KeyRef, NumericMode, Number, Path, PathRef,
};

fn approx(a: u64, b: u64, e: u64) -> bool {
    f64::from_bits(a).approx_eq(f64::from_bits(b), F64Margin::default().epsilon(f64::from_bits(e)))
}

fn num(v: i64) -> Json {
    if v >= 0 {
        Json::Number(Number::PosInt { value: v as u64, as_float: (v as f64).to_bits() })
    } else {
        Json::Number(Number::NegInt { value: v, as_float: (v as f64).to_bits() })
    }
}

fn float(v: f64) -> Json {
    Json::Number(Number::Float { bits: v.to_bits() })
}

fn arr(items: Vec<Json>) -> Json {
    Json::Array(items)
}

fn obj(members: Vec<(&str, Json)>) -> Json {
    Json::Object(members.into_iter().map(|(k, v)| (k.to_string(), v)).collect())
}

fn epsilon(e: f64) -> FloatCompareMode {
    FloatCompareMode::Epsilon(e.to_bits())
}

fn field(name: &str) -> PathRef<'_> {
    PathRef::Keys(vec![KeyRef::Field(name)])
}

#[test]
fn test_diffing_leaf_json() {
    let config = Config::new(CompareMode::Inclusive);
    let diffs = diff(&Json::Null, &Json::Null, &config, &approx);
    assert_eq!(diffs, vec![]);

    let diffs = diff(&Json::Bool(false), &Json::Bool(false), &config, &approx);
    assert_eq!(diffs, vec![]);

    let diffs = diff(&Json::Bool(true), &Json::Bool(true), &config, &approx);
    assert_eq!(diffs, vec![]);

    let diffs = diff(&Json::Bool(false), &Json::Bool(true), &config, &approx);
    assert_eq!(diffs.len(), 1);

    let diffs = diff(&Json::Bool(true), &Json::Bool(false), &config, &approx);
    assert_eq!(diffs.len(), 1);

    let actual = num(1);
    let expected = num(1);
    let diffs = diff(&actual, &expected, &config, &approx);
    assert_eq!(diffs, vec![]);

    let actual = num(2);
    let expected = num(1);
    let diffs = diff(&actual, &expected, &config, &approx);
    assert_eq!(diffs.len(), 1);

    let actual = num(1);
    let expected = num(2);
    let diffs = diff(&actual, &expected, &config, &approx);
    assert_eq!(diffs.len(), 1);

    let actual = float(1.0);
    let expected = float(1.0);
    let diffs = diff(&actual, &expected, &config, &approx);
    assert_eq!(diffs, vec![]);

    let actual = num(1);
    let expected = float(1.0);
    let diffs = diff(&actual, &expected, &config, &approx);
    assert_eq!(diffs.len(), 1);

    let actual = float(1.0);
    let expected = num(1);
    let diffs = diff(&actual, &expected, &config, &approx);
    assert_eq!(diffs.len(), 1);

    let config_assume_float = config.numeric_mode(NumericMode::AssumeFloat);

    let actual = num(1);
    let expected = float(1.0);
    let diffs = diff(&actual, &expected, &config_assume_float, &approx);
    assert_eq!(diffs, vec![]);

    let actual = float(1.0);
    let expected = num(1);
    let diffs = diff(&actual, &expected, &config_assume_float, &approx);
    assert_eq!(diffs, vec![]);

    let actual = float(1.15);
    let expected = num(1);
    let config = Config::new(CompareMode::Inclusive)
        .numeric_mode(NumericMode::AssumeFloat)
        .float_compare_mode(epsilon(0.2));
    let diffs = diff(&actual, &expected, &config, &approx);
    assert_eq!(diffs, vec![]);

    let actual = float(1.25);
    let expected = num(1);
    let config = Config::new(CompareMode::Inclusive)
        .numeric_mode(NumericMode::AssumeFloat)
        .float_compare_mode(epsilon(0.2));
    let diffs = diff(&actual, &expected, &config, &approx);
    assert_eq!(diffs.len(), 1);

    let actual = num(2);
    let expected = num(1);
    let config = Config::new(CompareMode::Inclusive).float_compare_mode(epsilon(2.0));
    let diffs = diff(&actual, &expected, &config, &approx);
    assert_eq!(diffs.len(), 1);
}

#[test]
fn test_diffing_array() {
    let config = Config::new(CompareMode::Inclusive);
    // empty
    let actual = arr(vec![]);
    let expected = arr(vec![]);
    let diffs = diff(&actual, &expected, &config, &approx);
    assert_eq!(diffs, vec![]);

    let actual = arr(vec![num(1)]);
    let expected = arr(vec![]);
    let diffs = diff(&actual, &expected, &config, &approx);
    assert_eq!(diffs.len(), 0);

    let actual = arr(vec![]);
    let expected = arr(vec![num(1)]);
    let diffs = diff(&actual, &expected, &config, &approx);
    assert_eq!(diffs.len(), 1);

    // eq
    let actual = arr(vec![num(1)]);
    let expected = arr(vec![num(1)]);
    let diffs = diff(&actual, &expected, &config, &approx);
    assert_eq!(diffs, vec![]);

    // actual longer
    let actual = arr(vec![num(1), num(2)]);
    let expected = arr(vec![num(1)]);
    let diffs = diff(&actual, &expected, &config, &approx);
    assert_eq!(diffs, vec![]);

    // expected longer
    let actual = arr(vec![num(1)]);
    let expected = arr(vec![num(1), num(2)]);
    let diffs = diff(&actual, &expected, &config, &approx);
    assert_eq!(diffs.len(), 1);

    // eq length but different
    let actual = arr(vec![num(1), num(3)]);
    let expected = arr(vec![num(1), num(2)]);
    let diffs = diff(&actual, &expected, &config, &approx);
    assert_eq!(diffs.len(), 1);

    // different types
    let actual = num(1);
    let expected = arr(vec![num(1)]);
    let diffs = diff(&actual, &expected, &config, &approx);
    assert_eq!(diffs.len(), 1);

    let actual = arr(vec![num(1)]);
    let expected = num(1);
    let diffs = diff(&actual, &expected, &config, &approx);
    assert_eq!(diffs.len(), 1);
}

#[test]
fn test_array_strict() {
    let config = Config::new(CompareMode::Strict);
    let actual = arr(vec![]);
    let expected = arr(vec![]);
    let diffs = diff(&actual, &expected, &config, &approx);
    assert_eq!(diffs.len(), 0);

    let actual = arr(vec![num(1), num(2)]);
    let expected = arr(vec![num(1), num(2)]);
    let diffs = diff(&actual, &expected, &config, &approx);
    assert_eq!(diffs.len(), 0);

    let actual = arr(vec![num(1)]);
    let expected = arr(vec![num(1), num(2)]);
    let diffs = diff(&actual, &expected, &config, &approx);
    assert_eq!(diffs.len(), 1);

    let actual = arr(vec![num(1), num(2)]);
    let expected = arr(vec![num(1)]);
    let diffs = diff(&actual, &expected, &config, &approx);
    assert_eq!(diffs.len(), 1);
}

#[test]
fn test_object() {
    let config = Config::new(CompareMode::Inclusive);
    let actual = obj(vec![]);
    let expected = obj(vec![]);
    let diffs = diff(&actual, &expected, &config, &approx);
    assert_eq!(diffs, vec![]);

    let actual = obj(vec![("a", num(1))]);
    let expected = obj(vec![("a", num(1))]);
    let diffs = diff(&actual, &expected, &config, &approx);
    assert_eq!(diffs, vec![]);

    let actual = obj(vec![("a", num(1)), ("b", num(123))]);
    let expected = obj(vec![("a", num(1))]);
    let diffs = diff(&actual, &expected, &config, &approx);
    assert_eq!(diffs, vec![]);

    let actual = obj(vec![("a", num(1))]);
    let expected = obj(vec![("b", num(1))]);
    let diffs = diff(&actual, &expected, &config, &approx);
    assert_eq!(diffs.len(), 1);

    let actual = obj(vec![("a", num(1))]);
    let expected = obj(vec![("a", num(2))]);
    let diffs = diff(&actual, &expected, &config, &approx);
    assert_eq!(diffs.len(), 1);

    let actual = obj(vec![("a", obj(vec![("b", Json::Bool(true))]))]);
    let expected = obj(vec![("a", obj(vec![]))]);
    let diffs = diff(&actual, &expected, &config, &approx);
    assert_eq!(diffs, vec![]);
}

#[test]
fn test_object_strict() {
    let config = Config::new(CompareMode::Strict);
    let lhs = obj(vec![]);
    let rhs = obj(vec![("a", num(1))]);
    let diffs = diff(&lhs, &rhs, &config, &approx);
    assert_eq!(diffs.len(), 1);

    let lhs = obj(vec![("a", num(1))]);
    let rhs = obj(vec![]);
    let diffs = diff(&lhs, &rhs, &config, &approx);
    assert_eq!(diffs.len(), 1);

    let json = obj(vec![("a", num(1))]);
    let diffs = diff(&json, &json, &config, &approx);
    assert_eq!(diffs, vec![]);
}

#[test]
fn strict_reflexive_on_nested_value() {
    let config = Config::new(CompareMode::Strict);
    let v = obj(vec![
        ("a", arr(vec![num(1), float(2.5), Json::Null])),
        ("b", obj(vec![("c", Json::String("x".to_string())), ("d", num(-3))])),
    ]);
    assert!(diff(&v, &v, &config, &approx).is_empty());
    let inclusive = Config::new(CompareMode::Inclusive);
    assert!(diff(&v, &v, &inclusive, &approx).is_empty());
}

#[test]
fn strict_one_sided_records_mirror() {
    let config = Config::new(CompareMode::Strict);
    let a = obj(vec![("x", arr(vec![num(1)]))]);
    let b = obj(vec![("x", arr(vec![num(1), num(2)]))]);
    let ab = diff(&a, &b, &config, &approx);
    let ba = diff(&b, &a, &config, &approx);
    assert_eq!(ab.len(), 1);
    assert_eq!(ba.len(), 1);
    let at = PathRef::Keys(vec![KeyRef::Field("x"), KeyRef::Idx(1)]);
    assert_eq!(ab[0].path, at);
    assert_eq!(ba[0].path, at);
    assert!(ab[0].lhs.is_none() && ab[0].rhs == Some(&num(2)));
    assert!(ba[0].lhs == Some(&num(2)) && ba[0].rhs.is_none());
}

#[test]
fn array_order_sensitivity() {
    let exact = Config::new(CompareMode::Inclusive);
    let ignore = exact.array_sorting_mode(json_diff::ArraySortingMode::Ignore);
    let l = arr(vec![num(1), num(2)]);
    let r = arr(vec![num(2), num(1)]);
    assert!(!diff(&l, &r, &exact, &approx).is_empty());
    assert!(diff(&l, &r, &ignore, &approx).is_empty());
    let strict_ignore = Config::new(CompareMode::Strict)
        .array_sorting_mode(json_diff::ArraySortingMode::Ignore);
    assert!(diff(&l, &r, &strict_ignore, &approx).is_empty());
}

#[test]
fn multiset_containment() {
    let cfg = Config::new(CompareMode::Inclusive)
        .array_sorting_mode(json_diff::ArraySortingMode::Ignore);
    let more = arr(vec![num(1), num(1), num(2)]);
    let fewer = arr(vec![num(1), num(2)]);
    assert!(diff(&more, &fewer, &cfg, &approx).is_empty());
    let diffs = diff(&fewer, &more, &cfg, &approx);
    assert_eq!(diffs.len(), 1);
    assert_eq!(diffs[0].path, PathRef::Root);
    assert_eq!(diffs[0].lhs, Some(&fewer));
    assert_eq!(diffs[0].rhs, Some(&more));
}

#[test]
fn strict_ignore_order_needs_equal_lengths() {
    let cfg = Config::new(CompareMode::Strict)
        .array_sorting_mode(json_diff::ArraySortingMode::Ignore);
    let more = arr(vec![num(1), num(1), num(2)]);
    let fewer = arr(vec![num(1), num(2)]);
    assert_eq!(diff(&more, &fewer, &cfg, &approx).len(), 1);
    let other = arr(vec![num(1), num(3)]);
    assert_eq!(diff(&other, &fewer, &cfg, &approx).len(), 1);
}

#[test]
fn float_epsilon_boundary() {
    let cfg = Config::new(CompareMode::Inclusive)
        .numeric_mode(NumericMode::AssumeFloat)
        .float_compare_mode(epsilon(0.2));
    assert!(diff(&float(1.15), &num(1), &cfg, &approx).is_empty());
    assert_eq!(diff(&float(1.25), &num(1), &cfg, &approx).len(), 1);
}

#[test]
fn numeric_strictness() {
    let cfg = Config::new(CompareMode::Inclusive);
    assert!(!diff(&num(1), &float(1.0), &cfg, &approx).is_empty());
    let cfg = cfg.numeric_mode(NumericMode::AssumeFloat);
    assert!(diff(&num(1), &float(1.0), &cfg, &approx).is_empty());
}

#[test]
fn exact_float_equality_of_zeros() {
    let cfg = Config::new(CompareMode::Strict);
    assert!(diff(&float(0.0), &float(-0.0), &cfg, &approx).is_empty());
    assert_eq!(diff(&float(0.5), &float(0.25), &cfg, &approx).len(), 1);
    assert_eq!(diff(&num(-1), &num(1), &cfg, &approx).len(), 1);
}

#[test]
fn object_strict_completeness() {
    let cfg = Config::new(CompareMode::Strict);
    let empty = obj(vec![]);
    let one = obj(vec![("a", num(1))]);
    let diffs = diff(&empty, &one, &cfg, &approx);
    assert_eq!(diffs.len(), 1);
    assert_eq!(diffs[0].path, field("a"));
    assert!(diffs[0].lhs.is_none());
    assert_eq!(diffs[0].rhs, Some(&num(1)));
    let diffs = diff(&one, &empty, &cfg, &approx);
    assert_eq!(diffs.len(), 1);
    assert_eq!(diffs[0].path, field("a"));
    assert_eq!(diffs[0].lhs, Some(&num(1)));
    assert!(diffs[0].rhs.is_none());
}

#[test]
fn end_to_end_inclusive() {
    let cfg = Config::new(CompareMode::Inclusive);
    let actual = obj(vec![("a", obj(vec![("b", Json::Bool(true))]))]);
    let expected = obj(vec![("a", obj(vec![]))]);
    assert!(diff(&actual, &expected, &cfg, &approx).is_empty());
    let actual = obj(vec![("a", num(1))]);
    let expected = obj(vec![("b", num(1))]);
    let diffs = diff(&actual, &expected, &cfg, &approx);
    assert_eq!(diffs.len(), 1);
    assert_eq!(diffs[0].path, field("b"));
    assert!(diffs[0].lhs.is_none());
    assert_eq!(diffs[0].rhs, Some(&expected));
}

#[test]
fn type_mismatch_is_one_record() {
    let cfg = Config::new(CompareMode::Strict);
    let s = Json::String("1".to_string());
    let one = num(1);
    let diffs = diff(&s, &one, &cfg, &approx);
    assert_eq!(diffs.len(), 1);
    assert_eq!(diffs[0].path, PathRef::Root);
    let o = obj(vec![]);
    let a = arr(vec![]);
    let diffs = diff(&o, &a, &cfg, &approx);
    assert_eq!(diffs.len(), 1);
}

#[test]
fn path_append_leaves_parent() {
    let root = PathRef::Root;
    let a = root.append(KeyRef::Field("a"));
    let b = a.append(KeyRef::Idx(3));
    assert_eq!(root, PathRef::Root);
    assert_eq!(a, field("a"));
    assert_eq!(b, PathRef::Keys(vec![KeyRef::Field("a"), KeyRef::Idx(3)]));
    assert_eq!(
        b.to_path(),
        Path::Keys(vec![Key::Field("a".to_string()), Key::Idx(3)])
    );
    assert_eq!(root.to_path(), Path::Root);
}

#[test]
fn owned_difference_copies_values() {
    let cfg = Config::new(CompareMode::Strict);
    let l = obj(vec![("k", arr(vec![num(1), Json::String("s".to_string())]))]);
    let r = obj(vec![("k", num(2))]);
    let diffs = diff(&l, &r, &cfg, &approx);
    assert_eq!(diffs.len(), 1);
    let owned = json_diff::Difference::from_ref(&diffs[0]);
    assert_eq!(owned.path, Path::Keys(vec![Key::Field("k".to_string())]));
    assert_eq!(owned.lhs, Some(arr(vec![num(1), Json::String("s".to_string())])));
    assert_eq!(owned.rhs, Some(num(2)));
    assert_eq!(owned.config, cfg);
}

#[test]
fn path_text_forms() {
    assert_eq!(PathRef::Root.text(), "(root)");
    let p = PathRef::Root.append(KeyRef::Field("a")).append(KeyRef::Idx(3));
    assert_eq!(p.text(), ".a[3]");
    let q = PathRef::Root.append(KeyRef::Idx(120)).append(KeyRef::Field("name"));
    assert_eq!(q.text(), "[120].name");
    let z = PathRef::Root.append(KeyRef::Idx(0));
    assert_eq!(z.text(), "[0]");
}

#[test]
fn messages_for_each_shape() {
    let inclusive = Config::new(CompareMode::Inclusive);
    let strict = Config::new(CompareMode::Strict);
    let l = obj(vec![("a", num(1))]);
    let r = obj(vec![("a", num(2)), ("b", num(3))]);

    let diffs = diff(&l, &r, &inclusive, &approx);
    assert_eq!(diffs.len(), 2);
    assert_eq!(
        diffs[0].message("1", "2"),
        "json atoms at path \".a\" are not equal:\n    expected:\n        2\n    actual:\n        1"
    );
    assert_eq!(diffs[1].message("", "{}"), "json atom at path \".b\" is missing from actual");

    let diffs = diff(&l, &r, &strict, &approx);
    assert_eq!(diffs.len(), 2);
    assert_eq!(
        diffs[0].message("1", "2"),
        "json atoms at path \".a\" are not equal:\n    lhs:\n        1\n    rhs:\n        2"
    );
    assert_eq!(diffs[1].message("", "3"), "json atom at path \".b\" is missing from lhs");

    let diffs = diff(&r, &l, &strict, &approx);
    assert_eq!(diffs.len(), 2);
    assert_eq!(diffs[1].message("3", ""), "json atom at path \".b\" is missing from rhs");

    let diffs = diff(&Json::Null, &Json::Bool(true), &strict, &approx);
    assert_eq!(
        diffs[0].message("null", "true"),
        "json atoms at path \"(root)\" are not equal:\n    lhs:\n        null\n    rhs:\n        true"
    );
}

#[test]
fn indent_every_line() {
    assert_eq!(json_diff::message::indent("[\n  1\n]", 2), "  [\n    1\n  ]");
    assert_eq!(json_diff::message::indent("x", 0), "x");
}

#[test]
fn reflexive_under_epsilon_floats() {
    let v = arr(vec![float(0.15), obj(vec![("x", float(-2.5)), ("y", num(7))])]);
    for mode in [CompareMode::Inclusive, CompareMode::Strict] {
        let cfg = Config::new(mode)
            .numeric_mode(NumericMode::AssumeFloat)
            .float_compare_mode(epsilon(0.2));
        assert!(diff(&v, &v, &cfg, &approx).is_empty());
    }
}
