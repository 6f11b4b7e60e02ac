use dense_search::primer::{add_two, greeting, internal_adder, Guess, Rectangle};

#[test]
fn it_works() {
    let result = 2 + 2;
    assert_eq!(result, 4);
}

#[test]
fn larger_can_hold_smaller() {
    let larger = Rectangle {
        width: 8,
        height: 7,
    };

    let smaller = Rectangle {
        width: 5,
        height: 1,
    };

    assert!(larger.can_hold(&smaller));
}

#[test]
fn smaller_cannot_hold_larger() {
    let larger = Rectangle {
        width: 8,
        height: 7,
    };

    let smaller = Rectangle {
        width: 5,
        height: 1,
    };

    assert!(!smaller.can_hold(&larger));
}

#[test]
fn it_adds_two() {
    assert_eq!(4, add_two(2));
}

#[test]
fn it_adds_two2() {
    assert_ne!(5, add_two(2));
}

#[test]
fn greeting_contains_name() {
    let greeting = greeting("John");

    assert!(
        greeting.contains("John"),
        "Greeting should contain name, value was {}",
        greeting
    );
}

#[test]
fn it_works_2() -> Result<(), String> {
    if 2 + 2 == 4 {
        Ok(())
    } else {
        Err(String::from("it failed"))
    }
}

#[test]
fn internal() {
    assert_eq!(4, internal_adder(2, 2));
}

#[test]
fn it_add_two() {
    assert_eq!(add_two(2), 4);
}

#[test]
fn greeting_is_exact() {
    assert_eq!(greeting("John"), "Hello, John!");
    assert_eq!(greeting(""), "Hello, !");
}

#[test]
fn add_two_at_the_edges() {
    assert_eq!(add_two(i32::MAX - 2), i32::MAX);
    assert_eq!(add_two(i32::MIN), i32::MIN + 2);
    assert_eq!(add_two(-2), 0);
}

#[test]
fn internal_adder_with_negatives() {
    assert_eq!(internal_adder(-5, 3), -2);
    assert_eq!(internal_adder(i32::MAX, i32::MIN), -1);
}

#[test]
fn rectangle_does_not_hold_its_equal() {
    let a = Rectangle { width: 3, height: 3 };
    let b = Rectangle { width: 3, height: 3 };
    assert!(!a.can_hold(&b));
    let wide = Rectangle { width: 9, height: 3 };
    assert!(!wide.can_hold(&a));
}

#[test]
fn guess_keeps_its_value() {
    assert_eq!(Guess::new(1).value(), 1);
    assert_eq!(Guess::new(42).value(), 42);
    assert_eq!(Guess::new(100).value(), 100);
}
