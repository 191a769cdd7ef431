//! Output-device resolution: matching a configured display-name fragment
//! against the live playback-device list, and cleaning decorated display
//! names down to the fragment a user configured.

use vstd::prelude::*;
use crate::text::lower_spec;
use crate::text::contains_seq;
use crate::text::contains_ci;
use crate::text::trim_spec;
use crate::text::trim_bytes;
use crate::text::find_byte_spec;
use crate::text::rfind_byte_spec;
use crate::text::find_byte_from;
use crate::text::rfind_byte;
use crate::text::bytes_eq;
use crate::protocol::copy_range;

verus! {

pub const LPAREN: u8 = 40;

pub const RPAREN: u8 = 41;

/// The bytes of the literal "None", the target that switches nothing.
pub open spec fn none_seq() -> Seq<u8> {
    seq![78u8, 111u8, 110u8, 101u8]
}

pub fn none_bytes() -> (r: Vec<u8>)
    ensures
        r@ == none_seq(),
{
    let mut r: Vec<u8> = Vec::new();
    r.push(78);
    r.push(111);
    r.push(110);
    r.push(101);
    proof {
        assert(r@ =~= none_seq());
    }
    r
}

/// A target that asks for no switch: empty, or the literal "None".
pub open spec fn no_switch(target: Seq<u8>) -> bool {
    target.len() == 0 || target == none_seq()
}

/// Whether a live device's display name matches the configured fragment:
/// case-insensitive substring containment.
pub open spec fn dev_matches(name: Seq<u8>, target: Seq<u8>) -> bool {
    contains_seq(lower_spec(name), lower_spec(target))
}

/// Resolves a configured target against the live `(display name, id)`
/// list: the first matching device's identifier wins; a no-switch target
/// resolves to nothing.
pub fn resolve_device(target: &[u8], devices: &Vec<(Vec<u8>, Vec<u8>)>) -> (r: Option<Vec<u8>>)
    ensures
        match r {
            Some(id) => {
                &&& !no_switch(target@)
                &&& exists|i: int|
                    {
                        &&& 0 <= i < devices@.len()
                        &&& #[trigger] dev_matches(devices@[i].0@, target@)
                        &&& id@ == devices@[i].1@
                        &&& forall|j: int|
                            0 <= j < i ==> !dev_matches(#[trigger] devices@[j].0@, target@)
                    }
            },
            None => no_switch(target@) || forall|i: int|
                0 <= i < devices@.len() ==> !dev_matches(#[trigger] devices@[i].0@, target@),
        },
{
    if target.len() == 0 {
        return None;
    }
    let none_label = none_bytes();
    if bytes_eq(target, none_label.as_slice()) {
        return None;
    }
    let mut i: usize = 0;
    while i < devices.len()
        invariant
            i <= devices@.len(),
            !no_switch(target@),
            forall|j: int| 0 <= j < i ==> !dev_matches(#[trigger] devices@[j].0@, target@),
        decreases devices@.len() - i,
    {
        let row = &devices[i];
        if contains_ci(row.0.as_slice(), target) {
            let id = copy_range(row.1.as_slice(), 0, row.1.len());
            proof {
                assert(dev_matches(devices@[i as int].0@, target@));
                assert(id@ == devices@[i as int].1@);
            }
            return Some(id);
        }
        i = i + 1;
    }
    None
}

/// A display name cleaned to its configured fragment: the trimmed text
/// between the first opening and the last closing parenthesis when both
/// stand in order, else the name unchanged.
pub open spec fn clean_name_spec(s: Seq<u8>) -> Seq<u8> {
    let fp = find_byte_spec(s, LPAREN);
    let lp = rfind_byte_spec(s, RPAREN);
    if 0 <= fp && fp < lp {
        trim_spec(s.subrange(fp + 1, lp))
    } else {
        s
    }
}

/// Cleans a decorated display name down to the fragment between its
/// parentheses, the form the configuration stores.
pub fn extract_clean_name(s: &[u8]) -> (r: Vec<u8>)
    ensures
        r@ == clean_name_spec(s@),
{
    let fp = find_byte_from(s, LPAREN, 0);
    let lp = rfind_byte(s, RPAREN);
    proof {
        assert(s@.skip(0) =~= s@);
    }
    match (fp, lp) {
        (Some(a), Some(b)) if a < b => {
            let inner = copy_range(s, a + 1, b);
            trim_bytes(inner.as_slice())
        },
        _ => {
            proof {
                let fs = find_byte_spec(s@, LPAREN);
                let ls = rfind_byte_spec(s@, RPAREN);
                assert(!(0 <= fs && fs < ls));
            }
            copy_range(s, 0, s.len())
        },
    }
}

} // verus!
