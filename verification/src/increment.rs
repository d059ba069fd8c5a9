//! Changing the value that a text spells.

use vstd::prelude::*;

verus! {

/// The other truth value, for a text that spells one: `"false"` for
/// `"true"` and `"true"` for `"false"`, whatever the amount. `None` for
/// any other text.
pub fn bool(selected_text: &str, _amount: i64) -> (r: Option<String>)
    ensures
        selected_text@ == "true"@ ==> r.is_some() && r.unwrap()@ == "false"@,
        selected_text@ == "false"@ ==> r.is_some() && r.unwrap()@ == "true"@,
        selected_text@ != "true"@ && selected_text@ != "false"@ ==> r.is_none(),
{
    proof {
        reveal_strlit("true");
        reveal_strlit("false");
    }
    let text = selected_text.to_owned();
    if text == "true".to_owned() {
        Some("false".to_owned())
    } else if text == "false".to_owned() {
        Some("true".to_owned())
    } else {
        None
    }
}

} // verus!
