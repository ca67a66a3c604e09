//! The per-user socket path: predictable, and distinct between users.

use vstd::prelude::*;
use vstd::string::*;

use crate::digits::{dec_rep, push_dec_u64};

verus! {

/// The socket path for the user with the given id.
pub fn socket_path_for_uid(uid: u32) -> (p: String)
    ensures
        p@ == "/tmp/t_trace."@ + dec_rep(uid as int) + ".sock"@,
{
    let mut p = String::new();
    p.append("/tmp/t_trace.");
    push_dec_u64(&mut p, uid as u64);
    p.append(".sock");
    assert(p@ =~= "/tmp/t_trace."@ + dec_rep(uid as int) + ".sock"@);
    p
}

} // verus!
