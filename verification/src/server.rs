//! What the server decides before it starts: the key typed in at the prompt
//! and the address it listens on.
use vstd::prelude::*;
use crate::text::{chars_of, decimal, decimal_string, push_char, string_of_range, trim, trim_range};

verus! {

/// The API key typed in at the prompt: the line trimmed, or `None` when
/// nothing but whitespace was typed.
pub fn entered_key(line: &str) -> (r: Option<String>)
    ensures
        trim(line@).len() == 0 ==> r is None,
        trim(line@).len() > 0 ==> r is Some && r->0@ == trim(line@),
{
    let v = chars_of(line);
    let (a, b) = trim_range(&v, 0, v.len());
    proof {
        assert(v@.subrange(0, v@.len() as int) =~= line@);
    }
    if a == b {
        None
    } else {
        Some(string_of_range(&v, a, b))
    }
}

/// The address the server listens on: `<host>:<port>`.
pub fn listen_address(host: &str, port: u16) -> (r: String)
    ensures
        r@ == host@ + seq![':'] + decimal(port as nat),
{
    let mut r = host.to_owned();
    push_char(&mut r, ':');
    let p = decimal_string(port as u64);
    r.append(p.as_str());
    r
}

} // verus!
