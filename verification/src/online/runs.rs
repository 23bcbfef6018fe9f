//! Runs of the online encryptor and decryptor: what segments that are processed
//! in order come to.

use crate::counter::SegmentCounter;
use crate::error::{Error, LengthRequirement};
use crate::message::{
    body_decrypted, lemma_opens_with_encrypted, lemma_opens_with_nothing,
    lemma_opens_with_segment, opens_with,
};
use crate::online::{segment_kind, Decryptor, Encryptor, FinalEncryptError};
use crate::parameters::SegmentKind;
use crate::wire_format::{
    lemma_decrypted_segment, lemma_numbers_are_big_endian, lemma_rejected_segment, number32,
};
use vstd::prelude::*;

verus! {

/// All parts in order, one after another.
pub open spec fn joined(parts: Seq<Seq<u8>>) -> Seq<u8>
    decreases parts.len(),
{
    if parts.len() == 0 {
        Seq::empty()
    } else {
        joined(parts.drop_last()) + parts.last()
    }
}

impl Encryptor {
    /// `encryptors` are the states of one that turns `plaintexts` into non-final
    /// `segments`, from the start of a message on.
    pub open spec fn run(
        encryptors: Seq<Self>,
        plaintexts: Seq<Seq<u8>>,
        segments: Seq<Seq<u8>>,
    ) -> bool {
        &&& encryptors.len() == plaintexts.len() + 1
        &&& segments.len() == plaintexts.len()
        &&& encryptors[0].wf()
        &&& encryptors[0].counter() == SegmentCounter::start()
        &&& forall|k: int|
            0 <= k < plaintexts.len() ==> Self::moved_on(
                #[trigger] encryptors[k],
                encryptors[k + 1],
                true,
            ) && encryptors[k].next_encrypted(
                SegmentKind::NonFinal,
                plaintexts[k],
                Ok(segments[k]),
            )
    }

    proof fn lemma_run_opens(
        encryptors: Seq<Self>,
        plaintexts: Seq<Seq<u8>>,
        segments: Seq<Seq<u8>>,
    )
        requires
            Self::run(encryptors, plaintexts, segments),
        ensures
            encryptors.last().wf(),
            encryptors.last().session() == encryptors[0].session(),
            encryptors.last().spec_header() == encryptors[0].spec_header(),
            encryptors.last().counter().next == plaintexts.len(),
            opens_with(
                encryptors[0].session(),
                joined(segments),
                joined(plaintexts),
                encryptors.last().counter(),
            ),
        decreases plaintexts.len(),
    {
        if plaintexts.len() == 0 {
            lemma_opens_with_nothing(encryptors[0].session());
        } else {
            let k = plaintexts.len() - 1;
            let earlier = encryptors.drop_last();
            assert forall|i: int| 0 <= i < plaintexts.drop_last().len() implies Self::moved_on(
                #[trigger] earlier[i],
                earlier[i + 1],
                true,
            ) && earlier[i].next_encrypted(
                SegmentKind::NonFinal,
                plaintexts.drop_last()[i],
                Ok(segments.drop_last()[i]),
            ) by {
                assert(Self::moved_on(encryptors[i], encryptors[i + 1], true));
            }
            Self::lemma_run_opens(earlier, plaintexts.drop_last(), segments.drop_last());
            assert(Self::moved_on(encryptors[k], encryptors[k + 1], true));
            let counter = encryptors[k].counter();
            encryptors[k].lemma_next_position();
            counter.lemma_positions_count_up(SegmentKind::NonFinal);
            lemma_opens_with_encrypted(
                encryptors[0].session(),
                joined(segments.drop_last()),
                joined(plaintexts.drop_last()),
                counter,
                SegmentKind::NonFinal,
                segments[k],
                plaintexts[k],
            );
        }
    }

    /// What an encryptor makes of plaintexts in order is a body that decrypts to
    /// them: the non-final segments and the final one, one after another, give
    /// all the plaintexts, one after another. Each segment takes the next
    /// position.
    pub proof fn lemma_complete_run(
        encryptors: Seq<Self>,
        plaintexts: Seq<Seq<u8>>,
        segments: Seq<Seq<u8>>,
        last_plaintext: Seq<u8>,
        last_segment: Seq<u8>,
    )
        requires
            Self::run(encryptors, plaintexts, segments),
            encryptors.last().next_encrypted(SegmentKind::Final, last_plaintext, Ok(last_segment)),
        ensures
            encryptors.last().counter().next == plaintexts.len(),
            encryptors.last().session() == encryptors[0].session(),
            body_decrypted(
                encryptors[0].session(),
                SegmentCounter::start(),
                joined(segments) + last_segment,
            ) == Ok::<Seq<u8>, Error>(joined(plaintexts) + last_plaintext),
    {
        Self::lemma_run_opens(encryptors, plaintexts, segments);
        let last = encryptors.last();
        last.lemma_next_position();
        lemma_opens_with_encrypted(
            encryptors[0].session(),
            joined(segments),
            joined(plaintexts),
            last.counter(),
            SegmentKind::Final,
            last_segment,
            last_plaintext,
        );
    }
}

impl Decryptor {
    /// `decryptors` are the states of one that turns `segments` into
    /// `plaintexts`, from the start of a message on.
    pub open spec fn run(
        decryptors: Seq<Self>,
        segments: Seq<Seq<u8>>,
        plaintexts: Seq<Seq<u8>>,
    ) -> bool {
        &&& decryptors.len() == segments.len() + 1
        &&& plaintexts.len() == segments.len()
        &&& decryptors[0].wf()
        &&& decryptors[0].counter() == SegmentCounter::start()
        &&& forall|k: int|
            0 <= k < segments.len() ==> Self::moved_on(
                #[trigger] decryptors[k],
                decryptors[k + 1],
                segment_kind(segments[k]),
                true,
            ) && decryptors[k].next_decrypted(segments[k]) == Ok::<Seq<u8>, Error>(plaintexts[k])
    }

    /// A decryptor that has accepted segments in order has decrypted a message
    /// as far as they go: while it is not closed, they are all non-final and take
    /// the positions from zero on, and once it is closed, they are a complete
    /// body, which decrypts to the plaintexts, one after another.
    pub proof fn lemma_accepted_run(
        decryptors: Seq<Self>,
        segments: Seq<Seq<u8>>,
        plaintexts: Seq<Seq<u8>>,
    )
        requires
            Self::run(decryptors, segments, plaintexts),
        ensures
            decryptors.last().wf(),
            decryptors.last().session() == decryptors[0].session(),
            !decryptors.last().counter().closed ==> decryptors.last().counter().next
                == segments.len() && opens_with(
                decryptors[0].session(),
                joined(segments),
                joined(plaintexts),
                decryptors.last().counter(),
            ),
            decryptors.last().counter().closed ==> decryptors.last().counter().next + 1
                == segments.len() && body_decrypted(
                decryptors[0].session(),
                SegmentCounter::start(),
                joined(segments),
            ) == Ok::<Seq<u8>, Error>(joined(plaintexts)),
        decreases segments.len(),
    {
        if segments.len() == 0 {
            lemma_opens_with_nothing(decryptors[0].session());
        } else {
            let k = segments.len() - 1;
            let earlier = decryptors.drop_last();
            assert forall|i: int| 0 <= i < segments.drop_last().len() implies Self::moved_on(
                #[trigger] earlier[i],
                earlier[i + 1],
                segment_kind(segments.drop_last()[i]),
                true,
            ) && earlier[i].next_decrypted(segments.drop_last()[i]) == Ok::<Seq<u8>, Error>(
                plaintexts.drop_last()[i],
            ) by {
                assert(Self::moved_on(
                    decryptors[i],
                    decryptors[i + 1],
                    segment_kind(segments[i]),
                    true,
                ));
            }
            Self::lemma_accepted_run(earlier, segments.drop_last(), plaintexts.drop_last());
            let before = decryptors[k];
            let segment = segments[k];
            let kind = segment_kind(segment);
            assert(Self::moved_on(before, decryptors[k + 1], kind, true));
            before.lemma_next_position();
            before.counter().lemma_positions_count_up(kind);
            lemma_opens_with_segment(
                decryptors[0].session(),
                joined(segments.drop_last()),
                joined(plaintexts.drop_last()),
                before.counter(),
                segment,
                plaintexts[k],
            );
        }
    }
}

/// A final segment that fails can be tried again: the encryptor that is kept is
/// at the same position of the same message, with the same header, and has the
/// nonces left that it had.
pub proof fn lemma_failed_final_is_retried(encryptor: Encryptor, failure: FinalEncryptError)
    requires
        encryptor.wf(),
        encryptor.kept_by(failure),
    ensures
        failure.kept().wf(),
        failure.kept().session() == encryptor.session(),
        failure.kept().provider() == encryptor.provider(),
        failure.kept().spec_header() == encryptor.spec_header(),
        failure.kept().counter() == encryptor.counter(),
        failure.kept().nonces().left() == encryptor.nonces().left(),
        failure.spec_error() == Error::RngFailure ==> encryptor.nonces().is_spent()
            && !encryptor.nonces().seeded,
{
}

/// A decryptor rejects a segment by its prefix first, which must be four bytes
/// that declare a full segment or a final one of at least 32 bytes that is at
/// most full; then because the message is closed or full; and then by what is
/// in it.
pub proof fn lemma_next_is_rejected(decryptor: Decryptor, segment: Seq<u8>)
    requires
        decryptor.wf(),
        segment.len() <= usize::MAX,
    ensures
        ({
            let full = decryptor.session().parameters.segment_length();
            let declared = number32(segment, 0);
            let counter = decryptor.counter();
            let result = decryptor.next_decrypted(segment);
            if segment.len() < 4 {
                result == Err::<Seq<u8>, Error>(
                    Error::InvalidCiphertextLength {
                        actual: segment.len() as usize,
                        required: LengthRequirement::Between {
                            minimum: 4,
                            maximum: full as usize,
                        },
                    },
                )
            } else if declared != 0xffff_ffff && !(32 <= declared <= full) {
                result == Err::<Seq<u8>, Error>(
                    Error::InvalidCiphertextLength {
                        actual: declared as usize,
                        required: LengthRequirement::Between {
                            minimum: 32,
                            maximum: full as usize,
                        },
                    },
                )
            } else if counter.closed {
                result == Err::<Seq<u8>, Error>(Error::Closed)
            } else if declared == 0xffff_ffff && counter.next == 0xff_ffff_ffff {
                result == Err::<Seq<u8>, Error>(Error::SegmentLimit)
            } else {
                result == decryptor.session().decrypted(
                    counter.next,
                    if declared == 0xffff_ffff {
                        SegmentKind::NonFinal
                    } else {
                        SegmentKind::Final
                    },
                    segment,
                )
            }
        }),
{
    decryptor.lemma_next_position();
    lemma_numbers_are_big_endian(0, 0, segment.take(4));
    if segment.len() >= 4 {
        assert(number32(segment, 0) == number32(segment.take(4), 0));
    }
    decryptor.counter().lemma_positions_count_up(segment_kind(segment));
}

/// Decrypting the next segment into an output with room for it gives what
/// decrypting it to a new buffer gives: the same plaintext stands at the start of
/// the output, and what follows stays, or both fail and nothing is written but,
/// where authentication fails, in the place of the plaintext.
pub proof fn lemma_next_into_agrees(
    decryptor: Decryptor,
    segment: Seq<u8>,
    before: Seq<u8>,
    after: Seq<u8>,
    result: Result<usize, Error>,
)
    requires
        decryptor.wf(),
        segment.len() <= usize::MAX,
        decryptor.session().parameters.segment_length() - 32 <= before.len() <= usize::MAX,
        decryptor.next_decrypted_into(segment, before, after, result),
    ensures
        match decryptor.next_decrypted(segment) {
            Ok(plaintext) => {
                &&& result == Ok::<usize, Error>(plaintext.len() as usize)
                &&& plaintext.len() + 32 == segment.len()
                &&& after == plaintext + before.skip(plaintext.len() as int)
            },
            Err(error) => {
                &&& result is Err
                &&& result != Err::<usize, Error>(Error::AuthenticationFailed) ==> after == before
                &&& error == Error::AuthenticationFailed ==> result == Err::<usize, Error>(error)
            },
        },
{
    decryptor.lemma_next_position();
    lemma_next_is_rejected(decryptor, segment);
    let kind = segment_kind(segment);
    let session = decryptor.session();
    let position = decryptor.counter().next;
    lemma_rejected_segment(session, position, kind, segment);
    if let Ok(plaintext) = decryptor.next_decrypted(segment) {
        lemma_decrypted_segment(session, position, kind, segment, plaintext);
    }
    lemma_numbers_are_big_endian(0, 0, segment.take(4));
    if segment.len() >= 4 {
        assert(number32(segment, 0) == number32(segment.take(4), 0));
    }
}

} // verus!
