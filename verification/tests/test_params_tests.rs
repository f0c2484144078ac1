use qemu_harness::test_params::{
    cartesian_product, check_bindings, check_skips, check_test_fn, extract_skip, make_bindings, make_label_code, test_fn, BindKind, ComboEntry,
    LabelPlan, MacroError, TestExpansion, ParamShape, ParamSpec, ParamValue, ValueList,
};

fn val(id: u64) -> ParamValue {
    ParamValue { id, text: None }
}

fn text(id: u64, t: &str) -> ParamValue {
    ParamValue { id, text: Some(t.to_string()) }
}

fn multi(name: &str, ids: &[u64]) -> ParamSpec {
    ParamSpec::from_syntax(name.to_string(), ValueList::Braced(ids.iter().map(|&i| val(i)).collect()))
}

fn optional(name: &str, ids: &[u64]) -> ParamSpec {
    ParamSpec::from_syntax(name.to_string(), ValueList::Bracketed(ids.iter().map(|&i| val(i)).collect()))
}

fn single(name: &str, id: u64) -> ParamSpec {
    ParamSpec::from_syntax(name.to_string(), ValueList::Single(val(id)))
}

fn skip(reason: &str) -> ParamSpec {
    ParamSpec::from_syntax("skip".to_string(), ValueList::Single(text(99, reason)))
}

fn entry(name: &str, value: Option<u64>, optional: bool) -> ComboEntry {
    ComboEntry { name: name.to_string(), value, optional }
}

fn summary(combos: &[Vec<ComboEntry>]) -> Vec<Vec<(String, Option<u64>, bool)>> {
    combos
        .iter()
        .map(|c| c.iter().map(|e| (e.name.clone(), e.value, e.optional)).collect())
        .collect()
}

fn expand(name: &str, sets: Vec<Vec<ParamSpec>>, params: &Vec<ParamShape>) -> TestExpansion {
    assert!(check_test_fn(&sets, params).is_none(), "unexpected refusal");
    test_fn(name, sets, params)
}

fn named(n: &str) -> ParamShape {
    ParamShape::Named(n.to_string())
}

#[test]
fn from_syntax_forms() {
    let s = multi("smp", &[1, 2, 4]);
    assert_eq!(s.name, "smp");
    assert!(!s.optional);
    assert_eq!(s.values.iter().map(|v| v.id).collect::<Vec<_>>(), vec![1, 2, 4]);
    let o = optional("cpu", &[5, 6]);
    assert!(o.optional);
    assert_eq!(o.values.len(), 2);
    let x = single("smp", 4);
    assert!(!x.optional);
    assert_eq!(x.values.len(), 1);
    assert_eq!(x.values[0].id, 4);
}

#[test]
fn extract_skip_keeps_others_in_order() {
    let (rest, reason) = extract_skip(vec![multi("a", &[1]), skip("slow"), multi("b", &[2])]);
    assert_eq!(rest.iter().map(|s| s.name.clone()).collect::<Vec<_>>(), vec!["a", "b"]);
    assert_eq!(reason, Some("slow".to_string()));
}

#[test]
fn extract_skip_last_reason_wins() {
    let (rest, reason) = extract_skip(vec![skip("one"), skip("two")]);
    assert!(rest.is_empty());
    assert_eq!(reason, Some("two".to_string()));
}

#[test]
fn extract_skip_none() {
    let (rest, reason) = extract_skip(vec![multi("a", &[1])]);
    assert_eq!(rest.len(), 1);
    assert_eq!(reason, None);
}

#[test]
fn extract_skip_refuses_non_string() {
    let bad = ParamSpec::from_syntax("skip".to_string(), ValueList::Single(val(3)));
    match check_skips(&vec![multi("a", &[1]), bad]) {
        Err(e) => {
            assert!(matches!(e, MacroError::SkipNotString));
            assert_eq!(e.message(), "skip value must be a string literal");
        }
        Ok(_) => panic!("expected an error"),
    }
    let empty = ParamSpec::from_syntax("skip".to_string(), ValueList::Braced(vec![]));
    assert!(check_skips(&vec![empty]).is_err());
}

#[test]
fn cartesian_product_order() {
    let combos = cartesian_product(&vec![multi("machine", &[10, 11]), multi("smp", &[1, 2, 4])]);
    assert_eq!(
        summary(&combos),
        vec![
            vec![("machine".to_string(), Some(10), false), ("smp".to_string(), Some(1), false)],
            vec![("machine".to_string(), Some(10), false), ("smp".to_string(), Some(2), false)],
            vec![("machine".to_string(), Some(10), false), ("smp".to_string(), Some(4), false)],
            vec![("machine".to_string(), Some(11), false), ("smp".to_string(), Some(1), false)],
            vec![("machine".to_string(), Some(11), false), ("smp".to_string(), Some(2), false)],
            vec![("machine".to_string(), Some(11), false), ("smp".to_string(), Some(4), false)],
        ]
    );
}

#[test]
fn cartesian_product_optional_adds_none_first() {
    let combos = cartesian_product(&vec![multi("m", &[1, 2]), optional("cpu", &[7, 8])]);
    assert_eq!(combos.len(), 6);
    assert_eq!(
        summary(&combos)[0],
        vec![("m".to_string(), Some(1), false), ("cpu".to_string(), None, true)]
    );
    assert_eq!(
        summary(&combos)[2],
        vec![("m".to_string(), Some(1), false), ("cpu".to_string(), Some(8), true)]
    );
    assert_eq!(summary(&combos)[3][1], ("cpu".to_string(), None, true));
}

#[test]
fn cartesian_product_edge_cases() {
    let combos = cartesian_product(&vec![]);
    assert_eq!(combos.len(), 1);
    assert!(combos[0].is_empty());
    assert!(cartesian_product(&vec![multi("a", &[1]), multi("b", &[])]).is_empty());
    assert_eq!(cartesian_product(&vec![optional("a", &[])]).len(), 1);
}

#[test]
fn bindings_follow_entries() {
    let combo = vec![entry("machine", Some(10), false), entry("cpu", None, true), entry("smp", Some(2), true)];
    let params = vec![named("smp"), named("machine"), named("cpu")];
    assert!(check_bindings(&params, &combo).is_none());
    let bs = make_bindings(&params, &combo);
    assert_eq!(bs.len(), 3);
    assert_eq!(bs[0].name, "smp");
    assert!(matches!(bs[0].kind, BindKind::SomeValue(2)));
    assert_eq!(bs[1].name, "machine");
    assert!(matches!(bs[1].kind, BindKind::Value(10)));
    assert!(matches!(bs[2].kind, BindKind::NoneValue));
}

#[test]
fn bindings_take_first_entry_of_a_name() {
    let combo = vec![entry("a", Some(1), false), entry("a", Some(2), false)];
    let bs = make_bindings(&vec![named("a")], &combo);
    assert!(matches!(bs[0].kind, BindKind::Value(1)));
}

#[test]
fn bindings_errors() {
    let combo = vec![entry("a", Some(1), false)];
    match check_bindings(&vec![named("a"), named("b")], &combo) {
        Some(e) => {
            assert!(matches!(&e, MacroError::MissingValue(n) if n == "b"));
            assert_eq!(e.message(), "missing attribute value for parameter `b`");
        }
        None => panic!("expected an error"),
    }
    match check_bindings(&vec![ParamShape::Receiver, named("b")], &combo) {
        Some(e) => assert_eq!(e.message(), "test_fn does not support self parameters"),
        None => panic!("expected an error"),
    }
    match check_bindings(&vec![ParamShape::Pattern], &combo) {
        Some(e) => assert_eq!(e.message(), "test_fn requires simple parameter names"),
        None => panic!("expected an error"),
    }
    match check_bindings(&vec![named("a")], &vec![entry("a", None, false)]) {
        Some(e) => assert_eq!(e.message(), "called `Option::unwrap()` on a `None` value"),
        None => panic!("expected an error"),
    }
}

#[test]
fn label_plans() {
    assert!(matches!(make_label_code("t", &vec![]), LabelPlan::Plain));
    assert!(matches!(make_label_code("t", &vec![entry("cpu", None, true)]), LabelPlan::Plain));
    match make_label_code("t", &vec![entry("machine", Some(1), false), entry("cpu", None, true), entry("smp", Some(4), true)]) {
        LabelPlan::Format { template, args } => {
            assert_eq!(template, "t(machine={}, smp={})");
            assert_eq!(args.len(), 2);
            assert_eq!(args[0].name, "machine");
            assert!(!args[0].unwrap);
            assert_eq!(args[1].name, "smp");
            assert!(args[1].unwrap);
        }
        LabelPlan::Plain => panic!("expected a template"),
    }
}

#[test]
fn test_fn_without_parameters() {
    let x = expand("test_kernel_boot", vec![vec![]], &vec![]);
    assert!(!x.parameterized);
    assert_eq!(x.skip, None);
    assert_eq!(x.instances.len(), 1);
    assert_eq!(x.instances[0].fn_name, "test_kernel_boot");
    assert_eq!(x.instances[0].label_fn, "test_kernel_boot_label");
    assert_eq!(x.instances[0].static_name, "_TEST_KERNEL_BOOT");
    assert!(x.instances[0].bindings.is_empty());
    assert!(matches!(x.instances[0].label, LabelPlan::Plain));
}

#[test]
fn test_fn_skip_only() {
    let x = expand("t", vec![vec![skip("requires tap networking")]], &vec![]);
    assert!(!x.parameterized);
    assert_eq!(x.skip, Some("requires tap networking".to_string()));
    assert_eq!(x.instances[0].static_name, "_T");
}

#[test]
fn test_fn_parameterized() {
    let sets = vec![vec![multi("cpu", &[1, 2]), multi("smp", &[1, 2, 4])]];
    let x = expand("test_live_migration_kernel", sets, &vec![named("cpu"), named("smp")]);
    assert!(x.parameterized);
    assert_eq!(x.instances.len(), 6);
    assert_eq!(x.instances[0].fn_name, "test_live_migration_kernel_0");
    assert_eq!(x.instances[5].fn_name, "test_live_migration_kernel_5");
    assert_eq!(x.instances[5].label_fn, "test_live_migration_kernel_5_label");
    assert_eq!(x.instances[5].static_name, "_TEST_LIVE_MIGRATION_KERNEL_5");
    assert!(matches!(x.instances[4].bindings[0].kind, BindKind::Value(2)));
    assert!(matches!(x.instances[4].bindings[1].kind, BindKind::Value(2)));
    match &x.instances[3].label {
        LabelPlan::Format { template, .. } => assert_eq!(template, "test_live_migration_kernel(cpu={}, smp={})"),
        LabelPlan::Plain => panic!("expected a template"),
    }
}

#[test]
fn test_fn_stacked_attributes() {
    let sets = vec![vec![multi("a", &[1]), skip("first")], vec![multi("a", &[2, 3])], vec![skip("last")]];
    let x = expand("t", sets, &vec![]);
    assert!(x.parameterized);
    assert_eq!(x.skip, Some("last".to_string()));
    assert_eq!(x.instances.len(), 4);
    assert_eq!(x.instances[3].fn_name, "t_3");
    assert!(matches!(x.instances[3].label, LabelPlan::Plain));
    match &x.instances[2].label {
        LabelPlan::Format { template, .. } => assert_eq!(template, "t(a={})"),
        LabelPlan::Plain => panic!("expected a template"),
    }
    // The empty last attribute gives a combination without `a`.
    let sets = vec![vec![multi("a", &[1])], vec![skip("last")]];
    match check_test_fn(&sets, &vec![named("a")]) {
        Some(e) => assert_eq!(e.message(), "missing attribute value for parameter `a`"),
        None => panic!("expected an error"),
    }
}

#[test]
fn test_fn_errors() {
    let sets = vec![vec![multi("a", &[1, 2])]];
    match check_test_fn(&sets, &vec![named("b")]) {
        Some(e) => assert_eq!(e.message(), "missing attribute value for parameter `b`"),
        None => panic!("expected an error"),
    }
    let bad = ParamSpec::from_syntax("skip".to_string(), ValueList::Single(val(3)));
    assert!(matches!(check_test_fn(&vec![vec![], vec![bad]], &vec![]), Some(MacroError::SkipNotString)));
    // Without parameters nothing is bound, so a `self` parameter is accepted.
    assert!(check_test_fn(&vec![vec![]], &vec![ParamShape::Receiver]).is_none());
    let x = expand("t", vec![vec![]], &vec![ParamShape::Receiver]);
    assert!(!x.parameterized);
}

#[test]
fn test_fn_uppercases_unicode_names() {
    let x = expand("straße", vec![vec![]], &vec![]);
    assert_eq!(x.instances[0].static_name, "_STRASSE");
}

#[test]
fn check_skips_cases() {
    assert!(check_skips(&vec![multi("a", &[1]), skip("x")]).is_ok());
    assert!(check_skips(&vec![]).is_ok());
    let bad = ParamSpec::from_syntax("skip".to_string(), ValueList::Single(val(3)));
    assert!(matches!(check_skips(&vec![multi("a", &[1]), bad]), Err(MacroError::SkipNotString)));
}

#[test]
fn test_fn_generated_names_are_distinct() {
    let sets = vec![vec![multi("n", &(0..12).collect::<Vec<u64>>())]];
    let x = expand("t", sets, &vec![named("n")]);
    assert_eq!(x.instances.len(), 12);
    let mut names: Vec<String> = Vec::new();
    for i in &x.instances {
        names.push(i.fn_name.clone());
        names.push(i.label_fn.clone());
        names.push(i.static_name.clone());
    }
    let mut sorted = names.clone();
    sorted.sort();
    sorted.dedup();
    assert_eq!(sorted.len(), names.len());
    assert_eq!(x.instances[11].label_fn, "t_11_label");
    assert_eq!(x.instances[11].static_name, "_T_11");
}

#[test]
fn test_fn_instance_count_over_stacked_attributes() {
    // {2 values} x [2 values + absent] = 6, plus an empty stacked set = 1.
    let sets = vec![vec![multi("m", &[1, 2]), optional("cpu", &[3, 4])], vec![]];
    assert!(check_test_fn(&sets, &vec![]).is_none());
    let x = test_fn("t", sets, &vec![]);
    assert_eq!(x.instances.len(), 7);
    assert_eq!(x.instances[6].static_name, "_T_6");
}
