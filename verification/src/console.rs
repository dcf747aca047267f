//! What the console driver sends for a byte, and how it reads the
//! platform's answer to a request for input.
//!
//! The platform calls themselves are made by the driver's owner; here is
//! what it has to decide.

use vstd::prelude::*;

verus! {

/// The control sequence that switches the terminal to red text: `ESC [ 3 1 m`.
pub open spec fn red_sequence() -> Seq<u8> {
    seq![0x1Bu8, 0x5Bu8, 0x33u8, 0x31u8, 0x6Du8]
}

/// The console's color state: whether the switch to red has been sent.
pub struct Console {
    set_red: bool,
}

impl View for Console {
    type V = bool;

    closed spec fn view(&self) -> bool {
        self.set_red
    }
}

impl Console {
    /// A console that has sent nothing yet.
    pub fn new() -> (c: Self)
        ensures
            !c@,
    {
        Console { set_red: false }
    }

    /// The bytes to send in order to write `c`: the switch to red goes first
    /// unless it was sent before, and is never sent again.
    pub fn output_for(&mut self, c: u8) -> (out: Vec<u8>)
        ensures
            final(self)@,
            out@ == if old(self)@ {
                seq![c]
            } else {
                red_sequence() + seq![c]
            },
    {
        let mut out: Vec<u8> = Vec::new();
        if !self.set_red {
            self.set_red = true;
            let red: [u8; 5] = [0x1B, 0x5B, 0x33, 0x31, 0x6D];
            let mut i: usize = 0;
            while i < 5
                invariant
                    i <= 5,
                    red@ == red_sequence(),
                    out@ == red_sequence().take(i as int),
                decreases 5 - i,
            {
                out.push(red[i]);
                i = i + 1;
                proof {
                    assert(out@ =~= red_sequence().take(i as int));
                }
            }
            proof {
                assert(red_sequence().take(5) =~= red_sequence());
            }
        }
        out.push(c);
        out
    }
}

/// Reads the platform's answer to a request for input: all bits set means
/// that no input is waiting, and any other word carries the byte in its low
/// eight bits.
pub fn decode_input(raw: usize) -> (r: Option<u8>)
    ensures
        r is None <==> raw == usize::MAX,
        r matches Some(b) ==> b == raw % 256,
{
    if raw == usize::MAX {
        None
    } else {
        let byte: u8 = #[verifier::truncate]
        (raw as u8);
        proof {
            assert(raw as u8 == raw % 256) by (bit_vector);
        }
        Some(byte)
    }
}

} // verus!
