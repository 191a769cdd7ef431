//! The wire protocol: newline-terminated plain-text lines. A line is
//! either one of the two reserved button signals or a channel frame of
//! '|'-separated decimal fields, one per configured channel.

use vstd::prelude::*;
use crate::text::find_byte_spec;
use crate::text::find_byte_from;
use crate::text::trim_spec;

verus! {

pub const PIPE: u8 = 124;

/// The bytes of the first button signal, "WORKS 1".
pub open spec fn works1_seq() -> Seq<u8> {
    seq![87u8, 79u8, 82u8, 75u8, 83u8, 32u8, 49u8]
}

/// The bytes of the second button signal, "WORKS 2".
pub open spec fn works2_seq() -> Seq<u8> {
    seq![87u8, 79u8, 82u8, 75u8, 83u8, 32u8, 50u8]
}

pub fn works1_bytes() -> (r: Vec<u8>)
    ensures
        r@ == works1_seq(),
{
    let mut r: Vec<u8> = Vec::new();
    r.push(87);
    r.push(79);
    r.push(82);
    r.push(75);
    r.push(83);
    r.push(32);
    r.push(49);
    proof {
        assert(r@ =~= works1_seq());
    }
    r
}

pub fn works2_bytes() -> (r: Vec<u8>)
    ensures
        r@ == works2_seq(),
{
    let mut r: Vec<u8> = Vec::new();
    r.push(87);
    r.push(79);
    r.push(82);
    r.push(75);
    r.push(83);
    r.push(32);
    r.push(50);
    proof {
        assert(r@ =~= works2_seq());
    }
    r
}

/// The fields of `s` split on `sep`: every separator starts a new field,
/// so there is always one field more than there are separators.
pub open spec fn split_spec(s: Seq<u8>, sep: u8) -> Seq<Seq<u8>>
    decreases s.len(),
{
    let i = find_byte_spec(s, sep);
    if 0 <= i && i < s.len() {
        seq![s.take(i)] + split_spec(s.skip(i + 1), sep)
    } else {
        seq![s]
    }
}

/// The fields of a trimmed line, split on the pipe. The field count of a
/// frame is what the router holds against the channel count.
pub open spec fn frame_fields(line: Seq<u8>) -> Seq<Seq<u8>> {
    split_spec(trim_spec(line), PIPE)
}

/// Copies `s[a .. b)`.
#[verifier::loop_isolation(false)]
pub fn copy_range(s: &[u8], a: usize, b: usize) -> (r: Vec<u8>)
    requires
        a <= b <= s@.len(),
    ensures
        r@ == s@.subrange(a as int, b as int),
{
    let mut r: Vec<u8> = Vec::new();
    let mut i: usize = a;
    while i < b
        invariant
            a <= i <= b,
            r@ == s@.subrange(a as int, i as int),
        decreases b - i,
    {
        r.push(s[i]);
        proof {
            assert(s@.subrange(a as int, (i + 1) as int) =~= s@.subrange(a as int, i as int).push(
                s@[i as int],
            ));
        }
        i = i + 1;
    }
    r
}

/// Splits `s` on `sep` into owned fields.
#[verifier::loop_isolation(false)]
pub fn split_bytes(s: &[u8], sep: u8) -> (r: Vec<Vec<u8>>)
    ensures
        r@.len() == split_spec(s@, sep).len(),
        forall|i: int| 0 <= i < r@.len() ==> #[trigger] r@[i]@ == split_spec(s@, sep)[i],
{
    let len = s.len();
    let mut r: Vec<Vec<u8>> = Vec::new();
    let mut pos: usize = 0;
    proof {
        assert(s@.skip(0) =~= s@);
    }
    loop
        invariant
            pos <= len,
            len == s@.len(),
            r@.len() + split_spec(s@.skip(pos as int), sep).len() == split_spec(s@, sep).len(),
            forall|i: int| 0 <= i < r@.len() ==> #[trigger] r@[i]@ == split_spec(s@, sep)[i],
            forall|i: int|
                0 <= i < split_spec(s@.skip(pos as int), sep).len() ==> #[trigger] split_spec(
                    s@.skip(pos as int),
                    sep,
                )[i] == split_spec(s@, sep)[r@.len() + i],
        decreases len - pos,
    {
        let ghost t = s@.skip(pos as int);
        match find_byte_from(s, sep, pos) {
            Some(j) => {
                let field = copy_range(s, pos, j);
                r.push(field);
                proof {
                    let fi = find_byte_spec(t, sep);
                    let tail = split_spec(t.skip(fi + 1), sep);
                    assert(fi == j - pos);
                    assert(0 <= fi < t.len());
                    assert(split_spec(t, sep) == seq![t.take(fi)] + tail);
                    assert(split_spec(t, sep)[0] == t.take(fi));
                    assert(t.take(fi) =~= s@.subrange(pos as int, j as int));
                    assert(t.skip(fi + 1) =~= s@.skip((j + 1) as int));
                    assert(r@[r@.len() - 1]@ == split_spec(s@, sep)[r@.len() - 1]);
                    assert forall|i: int| 0 <= i < tail.len() implies #[trigger] tail[i]
                        == split_spec(t, sep)[i + 1] by {
                        assert((seq![t.take(fi)] + tail)[i + 1] == tail[i]);
                    }
                }
                pos = j + 1;
            },
            None => {
                let field = copy_range(s, pos, len);
                r.push(field);
                proof {
                    let fi = find_byte_spec(t, sep);
                    assert(fi < 0);
                    assert(split_spec(t, sep) == seq![t]);
                    assert(split_spec(t, sep)[0] == t);
                    assert(t =~= s@.subrange(pos as int, len as int));
                    assert(r@[r@.len() - 1]@ == split_spec(s@, sep)[r@.len() - 1]);
                }
                return r;
            },
        }
    }
}

} // verus!
