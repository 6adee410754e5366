//! Construction of a grid from a stream of bytes.

use vstd::prelude::*;
use crate::grid::Board;

verus! {

/// Whether b is an ASCII digit byte, '0' through '9'.
pub open spec fn is_digit_byte(b: u8) -> bool {
    48 <= b <= 57
}

/// The cell values carried by the digit bytes of s, in order: '0' through
/// '9' become 0 through 9, and every other byte is skipped.
pub open spec fn digit_values(s: Seq<u8>) -> Seq<u8>
    decreases s.len(),
{
    if s.len() == 0 {
        Seq::empty()
    } else {
        let rest = digit_values(s.drop_last());
        if is_digit_byte(s.last()) {
            rest.push((s.last() - 48) as u8)
        } else {
            rest
        }
    }
}

/// The digit values of a prefix of s stand unchanged at the front of the
/// digit values of s.
proof fn lemma_digit_values_prefix(s: Seq<u8>, j: int)
    requires
        0 <= j <= s.len(),
    ensures
        digit_values(s.take(j)).len() <= digit_values(s).len(),
        forall|i: int| 0 <= i < digit_values(s.take(j)).len() ==> digit_values(s.take(j))[i]
            == digit_values(s)[i],
    decreases s.len() - j,
{
    if j == s.len() {
        assert(s.take(j) =~= s);
    } else {
        assert(s.take(j + 1).drop_last() =~= s.take(j));
        assert(s.take(j + 1).last() == s[j]);
        lemma_digit_values_prefix(s, j + 1);
    }
}

impl Board {
    /// Builds the grid from a byte stream: bytes other than ASCII digits
    /// are skipped, the first 81 digits fill the cells in row-major order
    /// with '0' meaning empty, digits after the 81st are ignored, and a
    /// shortfall leaves the remaining cells empty.
    pub fn from_bytes(input: &[u8]) -> (b: Board)
        ensures
            b.wf(),
            forall|i: int| 0 <= i < 81 ==> b@[i] == (if i < digit_values(input@).len() {
                digit_values(input@)[i]
            } else {
                0
            }),
    {
        let mut b = Board::new();
        let mut count: usize = 0;
        let mut j: usize = 0;
        while j < input.len() && count < 81
            invariant
                b.wf(),
                j <= input@.len(),
                count <= 81,
                count <= digit_values(input@.take(j as int)).len(),
                count < 81 ==> count == digit_values(input@.take(j as int)).len(),
                forall|i: int| 0 <= i < count ==> b@[i] == digit_values(input@.take(j as int))[i],
                forall|i: int| count <= i < 81 ==> b@[i] == 0,
            decreases input@.len() - j,
        {
            let byte = input[j];
            proof {
                assert(input@.take(j as int + 1).drop_last() =~= input@.take(j as int));
                assert(input@.take(j as int + 1).last() == input@[j as int]);
            }
            if byte >= 48 && byte <= 57 {
                b.set_at(count, byte - 48);
                count += 1;
            }
            j += 1;
        }
        proof {
            if j == input@.len() {
                assert(input@.take(j as int) =~= input@);
            } else {
                lemma_digit_values_prefix(input@, j as int);
            }
        }
        b
    }
}

} // verus!
