use space_inspector::adder::{add, add_two, Rectangle};

#[test]
fn exploration() {
    assert_eq!(2 + 2, 4);
}

#[test]
fn larger_can_hold_smaller() {
    let larger = Rectangle {
        width: 8,
        height: 7,
    };

    let smaller = Rectangle {
        width: 5,
        height: 1,
    };

    assert!(larger.can_hold(&smaller));
}

#[test]
fn smaller_cannot_hold_larger() {
    let larger = Rectangle {
        width: 8,
        height: 7,
    };
    let smaller = Rectangle {
        width: 5,
        height: 1,
    };

    assert!(!smaller.can_hold(&larger));
}

#[test]
fn lib_it_works() -> Result<(), String> {
    if 2 + 2 == 4 {
        Ok(())
    } else {
        Err(String::from("two plus two does not equal four"))
    }
}

#[test]
fn equal_rectangle_cannot_hold() {
    let r = Rectangle {
        width: 3,
        height: 3,
    };
    assert!(!r.can_hold(&r));
}

#[test]
fn adds_sizes() {
    assert_eq!(add(2, 2), 4);
    assert_eq!(add(0, 0), 0);
}

#[test]
fn adds_two() {
    assert_eq!(add_two(40), 42);
    assert_eq!(add_two(-2), 0);
}
