use vstd::prelude::*;

verus! {

/// What one round of reading two files side by side says of them.
#[derive(Clone, Copy, Debug, PartialEq, Eq, Structural)]
pub enum ReadStep {
    /// Both files ended together: their contents are equal.
    Equal,
    /// The rounds differ in length or in bytes: so do the files.
    Different,
    /// The rounds agree and neither file has ended: read on.
    Continue,
}

pub open spec fn read_step(b1: Seq<u8>, b2: Seq<u8>) -> ReadStep {
    if b1.len() != b2.len() {
        ReadStep::Different
    } else if b1.len() == 0 {
        ReadStep::Equal
    } else if b1 != b2 {
        ReadStep::Different
    } else {
        ReadStep::Continue
    }
}

/// Judges one round of a byte-exact comparison of two open files: `buf1`
/// and `buf2` are what one read of each returned, empty at end of file.
pub fn cmp_read(buf1: &[u8], buf2: &[u8]) -> (r: ReadStep)
    ensures
        r == read_step(buf1@, buf2@),
{
    if buf1.len() != buf2.len() {
        return ReadStep::Different;
    }
    if buf1.len() == 0 {
        return ReadStep::Equal;
    }
    let mut k: usize = 0;
    while k < buf1.len()
        invariant
            buf1@.len() == buf2@.len(),
            k <= buf1@.len(),
            forall|t: int| 0 <= t < k ==> buf1@[t] == buf2@[t],
        decreases buf1@.len() - k,
    {
        if buf1[k] != buf2[k] {
            return ReadStep::Different;
        }
        k += 1;
    }
    assert(buf1@ =~= buf2@);
    ReadStep::Continue
}

} // verus!
