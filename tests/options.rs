use sudoku::{Cell, CellOptions};

fn set_of(digits: &str) -> CellOptions {
    let all = CellOptions::new();
    let mut out = all.difference(&all);
    for c in digits.chars() {
        let mut one = CellOptions::new();
        one.set_one(c);
        out = out.union(&one);
    }
    out
}

fn members(s: &CellOptions) -> String {
    let mut r = String::new();
    for c in "123456789".chars() {
        let mut one = CellOptions::new();
        one.set_one(c);
        if s.intersection(&one).has_one_option() {
            r.push(c);
        }
    }
    r
}

#[test]
fn clear_restores_every_digit() {
    let mut s = set_of("12");
    s.clear();
    assert_eq!(members(&s), "123456789");
}

#[test]
fn full_set_has_every_digit() {
    assert_eq!(members(&CellOptions::new()), "123456789");
    assert!(!CellOptions::new().has_one_option());
}

#[test]
fn set_one_leaves_one_digit() {
    let mut s = CellOptions::new();
    s.set_one('7');
    assert!(s.has_one_option());
    assert_eq!(s.get_last_option(), '7');
    assert_eq!(members(&s), "7");
}

#[test]
fn unset_removes_a_digit() {
    let mut s = CellOptions::new();
    s.unset('1');
    s.unset('9');
    assert_eq!(members(&s), "2345678");
    s.unset('9');
    assert_eq!(members(&s), "2345678");
}

#[test]
fn empty_set_is_not_single() {
    let s = CellOptions::new();
    let e = s.difference(&s);
    assert!(!e.has_one_option());
    assert_eq!(members(&e), "");
}

#[test]
fn union_intersection_difference() {
    let a = set_of("1357");
    let b = set_of("3456");
    assert_eq!(members(&a.union(&b)), "134567");
    assert_eq!(members(&a.intersection(&b)), "35");
    assert_eq!(members(&a.difference(&b)), "17");
    assert_eq!(members(&b.difference(&a)), "46");
}

#[test]
fn set_algebra_laws_on_values() {
    let a = set_of("248");
    assert_eq!(members(&a.difference(&a)), "");
    assert_eq!(members(&a.union(&CellOptions::new())), "123456789");
    let empty = a.difference(&a);
    assert_eq!(members(&a.intersection(&empty)), "");
    assert!(set_of("5").has_one_option());
    assert!(!set_of("56").has_one_option());
}

#[test]
fn last_option_of_each_digit() {
    for c in "123456789".chars() {
        let mut s = set_of(&c.to_string());
        assert_eq!(s.get_last_option(), c);
    }
}

#[test]
fn cell_starts_blank() {
    let c = Cell::new();
    assert!(!c.is_set());
    assert_eq!(c.character(), ' ');
    assert_eq!(members(c.options()), "123456789");
}

#[test]
fn cell_set_and_clear() {
    let mut c = Cell::new();
    c.set('4');
    assert!(c.is_set());
    assert_eq!(c.character(), '4');
    assert_eq!(members(c.options()), "4");
    assert!(c.has_one_option());
    c.clear();
    assert!(!c.is_set());
    assert_eq!(c.character(), ' ');
    assert_eq!(members(c.options()), "123456789");
}

#[test]
fn cell_remove_and_apply() {
    let mut c = Cell::new();
    for d in "12345678".chars() {
        c.remove_option(d);
    }
    assert!(!c.is_set());
    assert!(c.has_one_option());
    c.apply_option();
    assert!(c.is_set());
    assert_eq!(c.character(), '9');
}

#[test]
fn remove_option_keeps_assigned_digit() {
    let mut c = Cell::new();
    c.set('3');
    c.remove_option('3');
    assert!(c.is_set());
    assert_eq!(c.character(), '3');
    assert_eq!(members(c.options()), "3");
}

#[test]
fn display_full_set() {
    assert_eq!(CellOptions::new().display(), "{1, 2, 3, 4, 5, 6, 7, 8, 9}");
}

#[test]
fn display_some_digits() {
    assert_eq!(set_of("917").display(), "{1, 7, 9}");
    assert_eq!(set_of("5").display(), "{5}");
}

#[test]
fn display_empty_set() {
    let s = CellOptions::new();
    assert_eq!(s.difference(&s).display(), "{}");
}

#[test]
fn display_cell() {
    let mut c = Cell::new();
    assert_eq!(c.display(), "{1, 2, 3, 4, 5, 6, 7, 8, 9}");
    c.remove_option('2');
    c.remove_option('5');
    assert_eq!(c.display(), "{1, 3, 4, 6, 7, 8, 9}");
    c.set('8');
    assert_eq!(c.display(), "8");
}
