use synth_core::params::{resolve_param, ParamResolution};

#[test]
fn test_parameter_inheritance_prefers_parent_override() {
    // A group with a bend override, and a sequence below it with its own.
    let chain: Vec<Option<(f64, f64)>> = vec![Some((0.75, 12.0)), Some((0.0, 0.0))];
    let resolution = resolve_param(chain, (0.0, 0.0));
    assert_eq!(resolution.source_depth, Some(0));
    assert!((resolution.value.0 - 0.75).abs() < f64::EPSILON);
    assert!((resolution.value.1 - 12.0).abs() < f64::EPSILON);
}

#[test]
fn first_override_wins_and_locks_deeper_nodes() {
    let r = resolve_param(vec![None, Some(5), Some(7)], 0);
    assert_eq!(r.value, 5);
    assert_eq!(r.source_depth, Some(1));
    assert!(r.locked_for_depth(2));
    assert!(!r.locked_for_depth(1));
    assert!(r.provided_here(1));
    assert!(!r.provided_here(2));
}

#[test]
fn without_override_the_fallback_is_used() {
    let r = resolve_param(vec![None, None], 9);
    assert_eq!(r.value, 9);
    assert_eq!(r.source_depth, None);
    assert!(!r.locked_for_depth(0));
    let r = resolve_param(Vec::<Option<i32>>::new(), 4);
    assert_eq!((r.value, r.source_depth), (4, None));
}

#[test]
fn with_override_folds_from_the_root_down() {
    let start = ParamResolution { value: 0, source_depth: None };
    let r = start.with_override(None, 0).with_override(Some(3), 1).with_override(Some(8), 2);
    assert_eq!((r.value, r.source_depth), (3, Some(1)));
    let same = resolve_param(vec![None, Some(3), Some(8)], 0);
    assert_eq!((same.value, same.source_depth), (r.value, r.source_depth));
}

#[test]
fn deeper_override_is_ignored_once_locked() {
    let a = resolve_param(vec![Some(1), Some(2)], 0);
    let b = resolve_param(vec![Some(1), Some(99)], 0);
    assert_eq!((a.value, a.source_depth), (b.value, b.source_depth));
}
