//! The operating system's random source, with a record of its replies.

use vstd::prelude::*;

verus! {

/// A `u64` from the random source (`getrandom::fill` on eight bytes, read
/// little-endian). Nothing is claimed of the value: any `u64` may come.
#[verifier::external_body]
fn random_u64() -> (r: Result<u64, getrandom::Error>) {
    let mut buf = [0u8;8];
    getrandom::fill(&mut buf)?;
    Ok(u64::from_le_bytes(buf))
}

/// The random source. It records, in order, every reply it has handed
/// out, so that what is made from the draws can be stated over the draws
/// themselves.
pub struct OsRandom {
    replies: Ghost<Seq<Result<u64, getrandom::Error>>>,
}

impl OsRandom {
    /// The replies handed out so far, oldest first.
    pub closed spec fn replies(&self) -> Seq<Result<u64, getrandom::Error>> {
        self.replies@
    }

    /// The random source, with nothing drawn yet.
    pub fn new() -> (s: OsRandom)
        ensures
            s.replies() == Seq::<Result<u64, getrandom::Error>>::empty(),
    {
        OsRandom { replies: Ghost(Seq::empty()) }
    }

    /// The next reply of the random source: a `u64` or an error. It is
    /// handed out as it came and added to the record.
    pub fn next_u64(&mut self) -> (r: Result<u64, getrandom::Error>)
        ensures
            final(self).replies() == old(self).replies().push(r),
    {
        let r = random_u64();
        self.replies = Ghost(self.replies@.push(r));
        r
    }
}

} // verus!
