//! Where the server's socket is.

use vstd::prelude::*;

verus! {

/// The socket's path where the environment names none.
pub const DEFAULT_SOCK: &'static str = "/tmp/fraud-api.sock";

/// The path of the server's socket; `var` is what the environment names.
pub fn sock_path(var: Option<String>) -> (r: String)
    ensures
        r@ == (match var {
            Some(path) => path@,
            None => DEFAULT_SOCK@,
        }),
        var is None ==> r@ == "/tmp/fraud-api.sock"@,
{
    match var {
        Some(path) => path,
        None => DEFAULT_SOCK.to_owned(),
    }
}

} // verus!
