//! Help text for command-line callers of the driver.

use vstd::prelude::*;

verus! {

/// The usage message shown by command-line front ends.
pub fn get_help_message() -> (r: String)
    ensures
        r@ == spec_help_message(),
{
    proof {
        reveal_strlit(
            "\n    cli\n        -r <file> \t[read a file]\n        -b        \t[build a struct]\n        -o <file> \t[output an in memory struct to a file]\n    ",
        );
    }
    "\n    cli\n        -r <file> \t[read a file]\n        -b        \t[build a struct]\n        -o <file> \t[output an in memory struct to a file]\n    ".to_string()
}

/// The characters of the usage message.
pub open spec fn spec_help_message() -> Seq<char> {
    "\n    cli\n        -r <file> \t[read a file]\n        -b        \t[build a struct]\n        -o <file> \t[output an in memory struct to a file]\n    "@
}

} // verus!
