//! The share entity and its wire form.

use vstd::prelude::*;

use crate::error::SharksError;

verus! {

/// One evaluated point on the set of secret-encoding polynomials: an
/// x-coordinate and one y element per secret byte.  A dealer only emits
/// shares with a nonzero `x`, since evaluating at `x = 0` would hand the
/// secret out directly.
#[derive(Clone, Debug)]
pub struct Share {
    pub x: u8,
    pub y: Vec<u8>,
}

/// The wire form of a share: the x-coordinate byte followed by the y
/// elements in chunk order.
pub open spec fn encode_spec(x: u8, y: Seq<u8>) -> Seq<u8> {
    seq![x] + y
}

impl Share {
    /// Serializes the share to its wire form.
    pub fn to_bytes(&self) -> (r: Vec<u8>)
        ensures
            r@ == encode_spec(self.x, self.y@),
    {
        let mut out: Vec<u8> = Vec::new();
        out.push(self.x);
        let mut i: usize = 0;
        while i < self.y.len()
            invariant
                i <= self.y@.len(),
                out@.len() == i + 1,
                out@[0] == self.x,
                forall|k: int| 0 <= k < i ==> out@[k + 1] == self.y@[k],
            decreases self.y@.len() - i,
        {
            let b = self.y[i];
            out.push(b);
            i += 1;
        }
        proof {
            assert(out@ =~= encode_spec(self.x, self.y@));
        }
        out
    }

    /// Deserializes a share from its wire form: the first byte is `x`, the
    /// remaining bytes become `y` in order.  An empty input carries no
    /// x-coordinate and is rejected.
    pub fn from_bytes(bytes: &[u8]) -> (r: Result<Share, SharksError>)
        ensures
            bytes@.len() == 0 ==> r == Err::<Share, SharksError>(SharksError::DecodeError),
            bytes@.len() > 0 ==> (r matches Ok(s) && s.x == bytes@[0] && s.y@ == bytes@.skip(1)),
    {
        if bytes.len() == 0 {
            Err(SharksError::DecodeError)
        } else {
            let x = bytes[0];
            let mut y: Vec<u8> = Vec::new();
            let mut i: usize = 1;
            while i < bytes.len()
                invariant
                    1 <= i <= bytes@.len(),
                    y@.len() == i - 1,
                    forall|k: int| 0 <= k < i - 1 ==> y@[k] == bytes@[k + 1],
                decreases bytes@.len() - i,
            {
                let b = bytes[i];
                y.push(b);
                i += 1;
            }
            proof {
                assert(y@ =~= bytes@.skip(1));
            }
            Ok(Share { x, y })
        }
    }
}

/// The wire form round-trips: the encoding of a share is nonempty, starts
/// with its x-coordinate, and carries its y elements after it, so decoding
/// an encoded share restores it exactly.
pub proof fn lemma_codec_round_trip(x: u8, y: Seq<u8>)
    ensures
        encode_spec(x, y).len() == y.len() + 1,
        encode_spec(x, y)[0] == x,
        encode_spec(x, y).skip(1) == y,
{
    assert(encode_spec(x, y).skip(1) =~= y);
}

} // verus!
