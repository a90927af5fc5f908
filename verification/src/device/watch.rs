//! Device arrival: events, and the drive letters a change notification names.

use vstd::prelude::*;
use crate::text::push_char;

verus! {

/// A device arrived or was removed.
#[derive(Debug, Clone, PartialEq, Eq)]
pub enum DeviceEvent {
    Arrived { drive_letter: Option<String> },
    Removed { drive_letter: Option<String> },
}

/// The drive letter `A:`…`Z:` for bit `i`.
pub open spec fn letter_of(i: nat) -> Seq<char> {
    seq![(65 + i) as char, ':']
}

/// The letters whose bits (0 = `A` … 25 = `Z`) are set among the first `n` bits.
pub open spec fn letters_below(mask: u32, n: nat) -> Seq<Seq<char>>
    decreases n,
{
    if n == 0 {
        Seq::empty()
    } else {
        let r = letters_below(mask, (n - 1) as nat);
        if (mask >> ((n - 1) as u32)) & 1 == 1 { r.push(letter_of((n - 1) as nat)) } else { r }
    }
}

/// The drive letters named by a unit mask, in order: bit 0 is `A:`, bit 25 is `Z:`;
/// higher bits name no drive.
pub fn drive_letters_from_mask(mask: u32) -> (r: Vec<String>)
    ensures
        r@.len() == letters_below(mask, 26).len(),
        forall|k: int| 0 <= k < r@.len() ==> (#[trigger] r@[k])@ == letters_below(mask, 26)[k],
{
    let mut out: Vec<String> = Vec::new();
    let mut i: u32 = 0;
    while i < 26
        invariant
            i <= 26,
            out@.len() == letters_below(mask, i as nat).len(),
            forall|k: int| 0 <= k < out@.len() ==> (#[trigger] out@[k])@ == letters_below(mask, i as nat)[k],
        decreases 26 - i,
    {
        if (mask >> i) & 1 == 1 {
            let c = char_at(i);
            let mut s = String::new();
            push_char(&mut s, c);
            push_char(&mut s, ':');
            proof {
                assert(s@ =~= letter_of(i as nat));
            }
            out.push(s);
        }
        i = i + 1;
    }
    out
}

/// The capital letter `i` places after `A`.
fn char_at(i: u32) -> (c: char)
    requires
        i < 26,
    ensures
        c == (65 + i) as char,
{
    let b: u8 = 65 + (i as u8);
    let c = b as char;
    proof {
        assert(c == (65 + i) as char);
    }
    c
}

} // verus!
