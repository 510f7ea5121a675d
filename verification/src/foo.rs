//! A loop that counts to ten.

use vstd::prelude::*;

verus! {

/// Counts upward from zero, one at a time, and stops at ten.
pub fn foo() -> (result: Option<i32>)
    ensures
        result == Some(10i32),
{
    let mut bar: Option<i32> = Some(0);
    loop
        invariant
            bar is Some,
            0 <= bar.unwrap() <= 10,
        ensures
            bar == Some(10i32),
        decreases 10 - bar.unwrap(),
    {
        match bar {
            Some(value) => {
                if value == 10 {
                    break;
                } else {
                    bar = Some(value + 1);
                }
            },
            None => {
                break;
            },
        }
    }
    bar
}

} // verus!
