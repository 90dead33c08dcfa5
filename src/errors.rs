//! The error of a retention specification that could not be read.
use vstd::prelude::*;
use vstd::string::*;

verus! {

/// A retention specification that could not be read, with the reason.
#[derive(Debug, Clone)]
pub struct SchemaError(pub String);

/// The one-line operator message for a schema error with reason `reason`.
pub open spec fn schema_message(reason: Seq<char>) -> Seq<char> {
    "Error: Invalid schema: "@ + reason + "\n"@
}

impl SchemaError {
    /// What kind of error this is.
    pub fn description(&self) -> (r: &'static str)
        ensures
            r@ == "Invalid schema"@,
    {
        "Invalid schema"
    }

    /// The one-line message shown to an operator.
    pub fn message(&self) -> (r: String)
        ensures
            r@ == schema_message(self.0@),
    {
        let mut r = String::from_str("Error: Invalid schema: ");
        r.append(self.0.as_str());
        r.append("\n");
        r
    }
}

} // verus!
