//! Responses on the wire: one line per request.

use vstd::prelude::*;

verus! {

#[derive(Debug)]
pub enum Response {
    OK { msg: String },
    Error { msg: String },
}

impl Response {
    /// The line written back: the message, an error-prefixed message,
    /// each newline-terminated.
    pub fn serialize(&self) -> (r: String)
        ensures
            (match self {
                Response::OK { msg } => r@ == msg@ + "\n"@,
                Response::Error { msg } => r@ == "Error: "@ + msg@ + "\n"@,
            }),
    {
        match self {
            Response::OK { msg } => msg.clone().concat("\n"),
            Response::Error { msg } => String::from_str("Error: ").concat(msg.as_str()).concat(
                "\n",
            ),
        }
    }
}

} // verus!
