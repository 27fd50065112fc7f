//! Buffer policy of the chunked driver.
//!
//! The driver fills a buffer from a byte source, runs a decoding pass over
//! the filled part, and keeps what the pass did not consume for the next
//! fill. This module holds what happens to the buffer between two fills.

use vstd::prelude::*;

verus! {

/// Size of the buffer a driver starts with.
pub const INITIAL_SIZE: usize = 524288;

/// A zeroed buffer of the initial size.
pub fn new_buffer() -> (buffer: Vec<u8>)
    ensures
        buffer@.len() == INITIAL_SIZE,
        forall|i: int| 0 <= i < buffer@.len() ==> buffer@[i] == 0,
{
    vec![0u8; INITIAL_SIZE]
}

/// What a read comes to. A read of no bytes ends the run: the source is
/// exhausted. Else the buffer, which held `offset` bytes before, holds
/// `offset + read` bytes now; a read that claims more than the `size` of the
/// buffer ends the run too.
pub fn after_read(offset: usize, read: usize, size: usize) -> (filled: Option<usize>)
    ensures
        filled == (if read == 0 || offset + read > size {
            None::<usize>
        } else {
            Some((offset + read) as usize)
        }),
{
    if read == 0 || offset > size || read > size - offset {
        None
    } else {
        Some(offset + read)
    }
}

/// Makes the buffer ready for the next fill, after a pass over its first
/// `filled` bytes consumed `consumed` of them. The bytes not consumed move
/// to the front; the result is their number, the offset at which the next
/// fill starts. Where the pass consumed nothing of a buffer that was full,
/// a single record exceeds the buffer: the buffer is doubled, so that the
/// record comes to fit. There is always room for the next fill.
pub fn slide(buffer: &mut Vec<u8>, filled: usize, consumed: usize) -> (offset: usize)
    requires
        consumed <= filled <= old(buffer)@.len(),
    ensures
        offset == filled - consumed,
        final(buffer)@.subrange(0, offset as int) == old(buffer)@.subrange(
            consumed as int,
            filled as int,
        ),
        final(buffer)@.len() == if consumed == 0 && filled == old(buffer)@.len() {
            2 * old(buffer)@.len()
        } else {
            old(buffer)@.len()
        },
        old(buffer)@.len() > 0 ==> offset < final(buffer)@.len(),
{
    if consumed == 0 && filled < buffer.len() {
        filled
    } else if consumed == 0 {
        let size = buffer.len();
        let mut added: usize = 0;
        while added < size
            invariant
                added <= size,
                size == old(buffer)@.len(),
                buffer@.len() == size + added,
                buffer@.subrange(0, size as int) == old(buffer)@,
            decreases size - added,
        {
            let ghost before = buffer@;
            buffer.push(0);
            added = added + 1;
            proof {
                assert(buffer@.subrange(0, size as int) =~= before.subrange(0, size as int));
            }
        }
        proof {
            assert(buffer@.subrange(0, filled as int) =~= old(buffer)@.subrange(0, filled as int));
        }
        filled
    } else {
        let mut i: usize = consumed;
        while i < filled
            invariant
                0 < consumed <= i <= filled <= buffer@.len(),
                buffer@.len() == old(buffer)@.len(),
                forall|j: int| consumed <= j < i ==> buffer@[j - consumed] == old(buffer)@[j],
                forall|j: int| i - consumed <= j < buffer@.len() ==> buffer@[j] == old(buffer)@[j],
            decreases filled - i,
        {
            let b = buffer[i];
            buffer[i - consumed] = b;
            i = i + 1;
        }
        proof {
            assert(buffer@.subrange(0, filled - consumed) =~= old(buffer)@.subrange(
                consumed as int,
                filled as int,
            ));
        }
        filled - consumed
    }
}

} // verus!
