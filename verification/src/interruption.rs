//! What is left of the persistent data when an update is interrupted

use vstd::prelude::*;
use crate::dual_page::{FlashCall, Page};
use crate::page_format::{
    encodings, loaded_payload, merged, page_image, page_payload, page_pieces, stored_size,
    update_calls, write_calls, write_target,
};
use crate::persist_laws::{are_honest, law_written_page_is_valid, lemma_merged_honest};
use crate::section_update::UpdateModel;

verus! {

/// Whether the page is erased by one of the calls `from <= i < to`.
pub open spec fn erases(calls: Seq<FlashCall>, page: Page, from: int, to: int) -> bool {
    exists|i: int| from <= i < to && calls[i] == FlashCall::Erase(page)
}

/// How many calls have begun when `done` are complete: the next one may have.
pub open spec fn begun(calls: Seq<FlashCall>, done: int) -> int {
    if done < calls.len() {
        done + 1
    } else {
        done
    }
}

/// Whether the first `done` calls erase the page, write `image` to it piece by piece and flush it,
/// and nothing has begun to erase it again.
pub open spec fn completes(
    calls: Seq<FlashCall>,
    done: int,
    page: Page,
    image: Seq<u8>,
) -> bool {
    exists|i: int, pieces: Seq<Seq<u8>>| #[trigger] erased_and_written(calls, i, page, pieces) && {
        &&& i + pieces.len() + 1 < done
        &&& pieces.flatten() == image
        &&& !erases(calls, page, i + 1, begun(calls, done))
    }
}

/// Whether, from call `i` on, the page is erased, `pieces` are written to it and it is flushed.
pub open spec fn erased_and_written(
    calls: Seq<FlashCall>,
    i: int,
    page: Page,
    pieces: Seq<Seq<u8>>,
) -> bool {
    &&& 0 <= i
    &&& i + pieces.len() + 1 < calls.len()
    &&& calls[i] == FlashCall::Erase(page)
    &&& calls.subrange(i + 1, i + 1 + pieces.len()) == write_calls(pieces)
    &&& calls[i + 1 + pieces.len()] == FlashCall::Flush
}

/// What a page may hold, if it held `before`, when `done` of the calls are complete and the next
/// one has been interrupted.
///
/// A page that is not selected for writing keeps its contents. A page that has been completely
/// written begins with what was written. All other contents are left open.
pub open spec fn may_hold(
    calls: Seq<FlashCall>,
    done: int,
    page: Page,
    before: Seq<u8>,
    after: Seq<u8>,
) -> bool {
    &&& after.len() == before.len()
    &&& !erases(calls, page, 0, begun(calls, done)) ==> after == before
    &&& forall|image: Seq<u8>| #[trigger]
        completes(calls, done, page, image) && image.len() <= after.len() ==> after.take(
            image.len() as int,
        ) == image
}

/// An update may be interrupted at any point: either the data that was in force before is still in
/// force, or the updated data is, complete.
///
/// A page that was interrupted while it was being erased or written can hold anything. That its
/// checksum matches by accident is left out.
pub proof fn law_interrupted_update_loses_nothing(
    a: Seq<u8>,
    b: Seq<u8>,
    updates: Seq<UpdateModel>,
    done: int,
    a2: Seq<u8>,
    b2: Seq<u8>,
)
    requires
        are_honest(updates),
        stored_size(merged(loaded_payload(a, b), updates)) <= 0xffff,
        page_image(merged(loaded_payload(a, b), updates)).len() <= if write_target(a, b)
            == Page::A {
            a.len()
        } else {
            b.len()
        },
        0 <= done <= update_calls(a, b, updates).len(),
        may_hold(update_calls(a, b, updates), done, Page::A, a, a2),
        may_hold(update_calls(a, b, updates), done, Page::B, b, b2),
        ({
            let updated = Some(encodings(merged(loaded_payload(a, b), updates)).flatten());
            &&& page_payload(a2) is Some ==> page_payload(a2) == page_payload(a) || page_payload(
                a2,
            ) == updated
            &&& page_payload(b2) is Some ==> page_payload(b2) == page_payload(b) || page_payload(
                b2,
            ) == updated
        }),
    ensures
        loaded_payload(a2, b2) == loaded_payload(a, b) || loaded_payload(a2, b2) == Some(
            encodings(merged(loaded_payload(a, b), updates)).flatten(),
        ),
{
    let payload = loaded_payload(a, b);
    let all = merged(payload, updates);
    let calls = update_calls(a, b, updates);
    let target = write_target(a, b);
    let pieces = page_pieces(all);
    let n = pieces.len() as int;
    lemma_merged_honest(payload, updates);
    assert(calls.subrange(1, 1 + n) =~= write_calls(pieces));
    assert(calls[n + 1] == FlashCall::Flush);
    assert(erased_and_written(calls, 0, target, pieces));
    assert(forall|i: int| 1 <= i < n + 1 ==> calls[i] == write_calls(pieces)[i - 1]);
    assert(!erases(calls, target, 1, begun(calls, done)));
    if n + 1 < done {
        assert(completes(calls, done, target, page_image(all)));
        law_written_page_is_valid(all, if target == Page::A { a2 } else { b2 });
    }
    if begun(calls, done) <= n + 2 {
        assert(!erases(calls, target.opposite(), 0, begun(calls, done)));
    }
}

} // verus!
