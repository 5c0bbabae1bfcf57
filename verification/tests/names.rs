use ulc::names::{decimal_string, NameSupply};

#[test]
fn fresh_names_count_from_one() {
    let mut names = NameSupply::new();
    assert_eq!(names.fresh(), "v1");
    assert_eq!(names.fresh(), "v2");
    assert_eq!(names.fresh(), "v3");
}

#[test]
fn fresh_names_carry_into_new_digits() {
    let mut names = NameSupply::new();
    let mut last = String::new();
    for _ in 0..9 {
        last = names.fresh();
    }
    assert_eq!(last, "v9");
    assert_eq!(names.fresh(), "v10");
    for _ in 0..88 {
        names.fresh();
    }
    assert_eq!(names.fresh(), "v99");
    assert_eq!(names.fresh(), "v100");
    assert_eq!(names.fresh(), "v101");
}

#[test]
fn fresh_names_never_repeat() {
    let mut names = NameSupply::new();
    let mut seen = std::collections::HashSet::new();
    for n in 1..=2000u32 {
        let name = names.fresh();
        assert_eq!(name, format!("v{}", n));
        assert!(seen.insert(name));
    }
}

#[test]
fn two_supplies_are_independent() {
    let mut a = NameSupply::new();
    let mut b = NameSupply::new();
    a.fresh();
    a.fresh();
    assert_eq!(b.fresh(), "v1");
    assert_eq!(a.fresh(), "v3");
}

#[test]
fn decimal_notation() {
    assert_eq!(decimal_string(0), "0");
    assert_eq!(decimal_string(7), "7");
    assert_eq!(decimal_string(10), "10");
    assert_eq!(decimal_string(40960), "40960");
    assert_eq!(decimal_string(usize::MAX), format!("{}", usize::MAX));
}
