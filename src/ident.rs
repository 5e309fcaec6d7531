//! Random identifiers for nodes, advertised services and transfers.

use vstd::prelude::*;
use crate::transfer::is_lower_hex;

verus! {

/// `t` has the hyphenated form of a UUID: 36 characters, hyphens at 8, 13,
/// 18 and 23, lower-case hex digits elsewhere.
pub open spec fn is_uuid_text(t: Seq<char>) -> bool {
    &&& t.len() == 36
    &&& forall|i: int|
        0 <= i < 36 ==> if i == 8 || i == 13 || i == 18 || i == 23 {
            #[trigger] t[i] == '-'
        } else {
            is_lower_hex(t[i])
        }
}

/// Relies on `uuid::Uuid::new_v4` and the hyphenated lower-case text that
/// its `Display` writes. The value is random: only its form is promised.
#[verifier::external_body]
fn random_uuid_text() -> (r: String)
    ensures
        is_uuid_text(r@),
{
    uuid::Uuid::new_v4().to_string()
}

/// A new random identifier in UUID text form.
pub fn new_identifier() -> (r: String)
    ensures
        is_uuid_text(r@),
{
    random_uuid_text()
}

} // verus!
