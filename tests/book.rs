use space_inspector::adder::{area, Rectangle};
use space_inspector::boxes::MyBox;
use space_inspector::guess::Guess;
use space_inspector::notification::Notification;
use space_inspector::restaurant::{fix_incorrect_order, Breakfast};
use space_inspector::shirts::{value_in_cents, Coin, Inventory, ShirtColor};
use space_inspector::words::{
    capitalize_first, capitalize_with, capitalize_words_1, capitalize_words_2, longest,
};

#[test]
fn guess_keeps_its_value() {
    assert_eq!(Guess::new(1).value(), 1);
    assert_eq!(Guess::new(100).value(), 100);
}

#[test]
fn notification_replaces_message() {
    let mut n = Notification::new();
    assert_eq!(n.message, None);
    n.notify(Some("saved".to_string()));
    assert_eq!(n.message, Some("saved".to_string()));
    n.notify(None);
    assert_eq!(n.message, None);
}

#[test]
fn summer_breakfast_has_the_toast() {
    let meal = Breakfast::summer("Rye");
    assert_eq!(meal.toast, "Rye");
}

#[test]
fn capitalizes_first_letter() {
    assert_eq!(capitalize_first("hello"), "Hello");
    assert_eq!(capitalize_first(""), "");
    assert_eq!(capitalize_first("ßa"), "SSa");
}

#[test]
fn capitalize_with_given_upper() {
    assert_eq!(capitalize_with("W", "world"), "World");
}

#[test]
fn capitalizes_words() {
    let words = vec!["hello", "world"];
    assert_eq!(capitalize_words_1(&words), vec!["Hello", "World"]);
    assert_eq!(capitalize_words_2(&words), "HelloWorld");
}

#[test]
fn most_stocked_colour() {
    let store = Inventory {
        shirts: vec![ShirtColor::Blue, ShirtColor::Red, ShirtColor::Blue],
    };
    assert_eq!(store.most_stocked(), ShirtColor::Blue);
    assert_eq!(store.giveaway(Some(ShirtColor::Red)), ShirtColor::Red);
    assert_eq!(store.giveaway(None), ShirtColor::Blue);
    let tie = Inventory {
        shirts: vec![ShirtColor::Red, ShirtColor::Blue],
    };
    assert_eq!(tie.most_stocked(), ShirtColor::Blue);
    let reds = Inventory {
        shirts: vec![ShirtColor::Red],
    };
    assert_eq!(reds.giveaway(None), ShirtColor::Red);
}

#[test]
fn coin_values() {
    assert_eq!(value_in_cents(Coin::Penny), 1);
    assert_eq!(value_in_cents(Coin::Dime), 10);
    assert_eq!(value_in_cents(Coin::Other), 100);
}

#[test]
fn longest_string() {
    assert_eq!(longest("abcd", "xyz"), "abcd");
    assert_eq!(longest("ab", "xy"), "xy");
}

#[test]
fn rectangle_areas() {
    let r = Rectangle {
        width: 30,
        height: 50,
    };
    assert_eq!(r.area(), 1500);
    assert_eq!(area(&r), 1500);
    let sq = Rectangle::square(3);
    assert_eq!((sq.width, sq.height), (3, 3));
}

#[test]
fn box_holds_its_value() {
    let b = MyBox::new(5);
    assert_eq!(*b.deref(), 5);
}

#[test]
fn incorrect_order_is_fixed() {
    fix_incorrect_order();
}
