//! The text shown on a counter button.
use vstd::prelude::*;
use vstd::string::to_string_from_display_ensures;

verus! {

/// "Click me!" while the count is zero, else the count in decimal.
pub fn counter_label(count: i64) -> (r: String)
    ensures
        count == 0 ==> r@ == "Click me!"@,
        count != 0 ==> to_string_from_display_ensures::<i64>(&count, r),
{
    if count == 0 {
        "Click me!".to_owned()
    } else {
        count.to_string()
    }
}

} // verus!
