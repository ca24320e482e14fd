use vstd::prelude::*;

verus! {

/// A breakfast order: the toast chosen, with the season's fruit.
pub struct Breakfast {
    pub toast: String,
    seasonal_fruit: String,
}

impl Breakfast {
    pub closed spec fn fruit(&self) -> Seq<char> {
        self.seasonal_fruit@
    }

    pub closed spec fn toast_of(&self) -> Seq<char> {
        self.toast@
    }

    /// The summer breakfast with `toast`: it comes with peaches.
    pub fn summer(toast: &str) -> (r: Breakfast)
        ensures
            r.toast_of() == toast@,
            r.fruit() == "peaches"@,
    {
        Breakfast { toast: String::from_str(toast), seasonal_fruit: String::from_str("peaches") }
    }
}

fn cook_order() {
}

fn deliver_order() {
}

/// Sends a wrong order back to the kitchen: cooked again, then delivered.
pub fn fix_incorrect_order() {
    cook_order();
    deliver_order();
}

} // verus!
