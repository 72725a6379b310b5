use vstd::prelude::*;

use crate::error::KVError;

verus! {

/// The 32-bit little-endian signed integer held by `bytes[pos..pos + 4]`.
pub open spec fn le_i32_at(bytes: Seq<u8>, pos: int) -> int {
    let unsigned = bytes[pos] as int + bytes[pos + 1] as int * 256 + bytes[pos + 2] as int * 65536
        + bytes[pos + 3] as int * 16777216;
    if bytes[pos + 3] >= 128 {
        unsigned - 4294967296
    } else {
        unsigned
    }
}

/// Whether the length prefix at `pos` frames a document: the declared length
/// counts at least the prefix and the closing zero byte, the document fits in
/// `bytes`, and its last byte is zero.
pub open spec fn document_at(bytes: Seq<u8>, pos: int) -> bool {
    let len = le_i32_at(bytes, pos);
    &&& 0 <= pos
    &&& pos + 4 <= bytes.len()
    &&& len >= 5
    &&& pos + len <= bytes.len()
    &&& bytes[pos + len - 1] == 0
}

/// The documents that a scan of `bytes` finds from `pos` on, as (offset,
/// length) pairs in order. The scan stops where fewer than four bytes are
/// left; a length prefix that frames no document makes it fail with the
/// offset of that prefix.
pub open spec fn frames_from(bytes: Seq<u8>, pos: int) -> Result<Seq<(u64, u64)>, u64>
    decreases bytes.len() - pos,
{
    if pos < 0 || bytes.len() - pos < 4 {
        Ok(Seq::empty())
    } else if !document_at(bytes, pos) {
        Err(pos as u64)
    } else {
        let len = le_i32_at(bytes, pos);
        match frames_from(bytes, pos + len) {
            Ok(rest) => Ok(seq![(pos as u64, len as u64)] + rest),
            Err(e) => Err(e),
        }
    }
}

/// `found` followed by the outcome of a later scan.
pub open spec fn after(found: Seq<(u64, u64)>, rest: Result<Seq<(u64, u64)>, u64>) -> Result<
    Seq<(u64, u64)>,
    u64,
> {
    match rest {
        Ok(r) => Ok(found + r),
        Err(e) => Err(e),
    }
}

/// Where the last of `frames` ends, or `start` where there is none.
pub open spec fn frames_end(frames: Seq<(u64, u64)>, start: int) -> int {
    if frames.len() == 0 {
        start
    } else {
        frames.last().0 + frames.last().1
    }
}

/// Frames that are each at least a minimal document long, lie within
/// `end`, and follow one another without overlap.
pub open spec fn frames_ordered(frames: Seq<(u64, u64)>, end: int) -> bool {
    &&& forall|i: int| 0 <= i < frames.len() ==> #[trigger] frames[i].1 >= 5 && frames[i].0
        + frames[i].1 <= end
    &&& forall|i: int, j: int|
        0 <= i < j < frames.len() ==> #[trigger] frames[i].0 + frames[i].1 <= #[trigger] frames[j].0
}

/// Splits a log into the documents it holds, as a scan from its start finds
/// them: `Ok` with the (offset, length) of each document in order, or the
/// offset of the first length prefix that frames no document.
pub fn document_frames(bytes: &[u8]) -> (r: Result<Vec<(u64, u64)>, KVError>)
    ensures
        match r {
            Ok(frames) => {
                &&& frames_from(bytes@, 0) == Ok::<Seq<(u64, u64)>, u64>(frames@)
                &&& frames_ordered(frames@, bytes@.len() as int)
            },
            Err(e) => e matches KVError::CorruptDocument { offset } && frames_from(bytes@, 0)
                == Err::<Seq<(u64, u64)>, u64>(offset),
        },
{
    let n = bytes.len();
    let mut frames: Vec<(u64, u64)> = Vec::new();
    let mut pos: usize = 0;
    assert(frames@ + Seq::<(u64, u64)>::empty() =~= frames@);
    while n - pos >= 4
        invariant
            n == bytes@.len(),
            pos <= n,
            frames_from(bytes@, 0) == after(frames@, frames_from(bytes@, pos as int)),
        decreases n - pos,
    {
        let b0 = bytes[pos];
        let b1 = bytes[pos + 1];
        let b2 = bytes[pos + 2];
        let b3 = bytes[pos + 3];
        if b3 >= 128 {
            return Err(KVError::CorruptDocument { offset: pos as u64 });
        }
        let len: usize = b0 as usize + b1 as usize * 256 + b2 as usize * 65536 + b3 as usize
            * 16777216;
        assert(le_i32_at(bytes@, pos as int) == len);
        if len < 5 || len > n - pos {
            return Err(KVError::CorruptDocument { offset: pos as u64 });
        }
        if bytes[pos + len - 1] != 0 {
            return Err(KVError::CorruptDocument { offset: pos as u64 });
        }
        let ghost old_frames = frames@;
        frames.push((pos as u64, len as u64));
        proof {
            let x = (pos as u64, len as u64);
            match frames_from(bytes@, pos + len) {
                Ok(rest) => {
                    assert(old_frames + (seq![x] + rest) =~= frames@ + rest);
                },
                Err(e) => {},
            }
        }
        pos = pos + len;
    }
    assert(frames@ + Seq::<(u64, u64)>::empty() =~= frames@);
    proof {
        lemma_frames_ordered(bytes@, 0);
    }
    Ok(frames)
}

/// Every scan that succeeds finds frames that follow one another from where
/// it started, each at least a minimal document long, within the bytes
/// scanned.
pub proof fn lemma_frames_ordered(bytes: Seq<u8>, pos: int)
    requires
        0 <= pos <= bytes.len(),
        bytes.len() <= u64::MAX,
        frames_from(bytes, pos) is Ok,
    ensures
        ({
            let frames = frames_from(bytes, pos)->Ok_0;
            &&& frames_ordered(frames, bytes.len() as int)
            &&& forall|i: int| 0 <= i < frames.len() ==> #[trigger] frames[i].0 >= pos
            &&& frames.len() > 0 ==> frames[0].0 == pos
            &&& frames_end(frames, pos) <= bytes.len()
        }),
    decreases bytes.len() - pos,
{
    if bytes.len() - pos < 4 {
    } else {
        let len = le_i32_at(bytes, pos);
        lemma_frames_ordered(bytes, pos + len);
        let rest = frames_from(bytes, pos + len)->Ok_0;
        let frames = frames_from(bytes, pos)->Ok_0;
        assert(frames == seq![(pos as u64, len as u64)] + rest);
        assert forall|i: int| 0 <= i < frames.len() implies #[trigger] frames[i].0 >= pos by {
            if i > 0 {
                assert(frames[i] == rest[i - 1]);
            }
        }
        assert forall|i: int, j: int|
            0 <= i < j < frames.len() implies #[trigger] frames[i].0 + frames[i].1
            <= #[trigger] frames[j].0 by {
            assert(frames[j] == rest[j - 1]);
            if i > 0 {
                assert(frames[i] == rest[i - 1]);
            }
        }
        assert forall|i: int| 0 <= i < frames.len() implies #[trigger] frames[i].1 >= 5
            && frames[i].0 + frames[i].1 <= bytes.len() by {
            if i > 0 {
                assert(frames[i] == rest[i - 1]);
            }
        }
        if rest.len() > 0 {
            assert(frames.last() == rest.last());
        }
    }
}

/// Appending a whole document to a log whose scan consumes it up to its end
/// leaves every earlier frame in place and adds the new document, found at
/// the offset where it was appended.
pub proof fn law_appended_document_is_found(log: Seq<u8>, document: Seq<u8>)
    requires
        log.len() + document.len() <= u64::MAX,
        frames_from(log, 0) is Ok,
        frames_end(frames_from(log, 0)->Ok_0, 0) == log.len(),
        document_at(document, 0),
        le_i32_at(document, 0) == document.len(),
    ensures
        frames_from(log + document, 0) == Ok::<Seq<(u64, u64)>, u64>(
            frames_from(log, 0)->Ok_0.push((log.len() as u64, document.len() as u64)),
        ),
{
    lemma_append_from(log, document, 0);
}

proof fn lemma_append_from(log: Seq<u8>, document: Seq<u8>, pos: int)
    requires
        0 <= pos <= log.len(),
        log.len() + document.len() <= u64::MAX,
        frames_from(log, pos) is Ok,
        frames_end(frames_from(log, pos)->Ok_0, pos) == log.len(),
        document_at(document, 0),
        le_i32_at(document, 0) == document.len(),
    ensures
        frames_from(log + document, pos) == Ok::<Seq<(u64, u64)>, u64>(
            frames_from(log, pos)->Ok_0.push((log.len() as u64, document.len() as u64)),
        ),
    decreases log.len() - pos,
{
    let whole = log + document;
    let dlen = document.len() as int;
    if pos == log.len() {
        assert(log.len() - pos < 4);
        assert forall|i: int| 0 <= i < dlen implies whole[pos + i] == document[i] by {}
        assert(whole[pos] == document[0]);
        assert(whole[pos + 1] == document[1]);
        assert(whole[pos + 2] == document[2]);
        assert(whole[pos + 3] == document[3]);
        assert(le_i32_at(whole, pos) == dlen);
        assert(whole[pos + dlen - 1] == document[dlen - 1]);
        assert(document_at(whole, pos));
        assert(whole.len() - (pos + dlen) < 4);
        assert(frames_from(whole, pos + dlen) == Ok::<Seq<(u64, u64)>, u64>(Seq::empty()));
        assert(seq![(pos as u64, dlen as u64)] + Seq::<(u64, u64)>::empty() =~= Seq::<
            (u64, u64),
        >::empty().push((log.len() as u64, document.len() as u64)));
    } else {
        if log.len() - pos < 4 {
            assert(frames_end(frames_from(log, pos)->Ok_0, pos) == pos);
            assert(false);
        }
        let len = le_i32_at(log, pos);
        assert(whole[pos] == log[pos]);
        assert(whole[pos + 1] == log[pos + 1]);
        assert(whole[pos + 2] == log[pos + 2]);
        assert(whole[pos + 3] == log[pos + 3]);
        assert(le_i32_at(whole, pos) == len);
        assert(whole[pos + len - 1] == log[pos + len - 1]);
        assert(document_at(whole, pos));
        let rest = frames_from(log, pos + len)->Ok_0;
        let frames = frames_from(log, pos)->Ok_0;
        assert(frames == seq![(pos as u64, len as u64)] + rest);
        if rest.len() > 0 {
            assert(frames.last() == rest.last());
        }
        assert(frames_end(rest, pos + len) == log.len());
        lemma_append_from(log, document, pos + len);
        assert(seq![(pos as u64, len as u64)] + rest.push(
            (log.len() as u64, document.len() as u64),
        ) =~= frames.push((log.len() as u64, document.len() as u64)));
    }
}

/// Whether `document` is exactly one well-framed document.
pub open spec fn whole_document(document: Seq<u8>) -> bool {
    document_at(document, 0) && le_i32_at(document, 0) == document.len()
}

/// The length that the four-byte prefix `prefix` declares for the document
/// starting at `offset` of its log, provided it counts at least the prefix and
/// the closing zero byte.
pub fn document_length(prefix: &[u8], offset: u64) -> (r: Result<u64, KVError>)
    requires
        prefix@.len() == 4,
    ensures
        match r {
            Ok(len) => le_i32_at(prefix@, 0) >= 5 && len == le_i32_at(prefix@, 0),
            Err(e) => le_i32_at(prefix@, 0) < 5 && e == KVError::CorruptDocument { offset },
        },
{
    if prefix[3] >= 128 {
        return Err(KVError::CorruptDocument { offset });
    }
    let len: u64 = prefix[0] as u64 + prefix[1] as u64 * 256 + prefix[2] as u64 * 65536
        + prefix[3] as u64 * 16777216;
    if len < 5 {
        return Err(KVError::CorruptDocument { offset });
    }
    Ok(len)
}

/// Checks that `document`, read from `offset` of its log, is exactly one
/// well-framed document.
pub fn check_document(document: &[u8], offset: u64) -> (r: Result<(), KVError>)
    ensures
        match r {
            Ok(()) => whole_document(document@),
            Err(e) => !whole_document(document@) && e == KVError::CorruptDocument { offset },
        },
{
    let n = document.len();
    if n < 5 || document[3] >= 128 {
        return Err(KVError::CorruptDocument { offset });
    }
    let len: usize = document[0] as usize + document[1] as usize * 256 + document[2] as usize
        * 65536 + document[3] as usize * 16777216;
    if len != n || document[n - 1] != 0 {
        return Err(KVError::CorruptDocument { offset });
    }
    Ok(())
}

/// The documents of `documents`, one after the other.
pub open spec fn concat_documents(documents: Seq<Seq<u8>>) -> Seq<u8>
    decreases documents.len(),
{
    if documents.len() == 0 {
        Seq::empty()
    } else {
        concat_documents(documents.drop_last()) + documents.last()
    }
}

/// The (offset, length) at which each of `documents` lands when they are
/// written one after the other from `start` on.
pub open spec fn written_frames(start: int, documents: Seq<Seq<u8>>) -> Seq<(u64, u64)>
    decreases documents.len(),
{
    if documents.len() == 0 {
        Seq::empty()
    } else {
        written_frames(start, documents.drop_last()).push(
            (
                (start + concat_documents(documents.drop_last()).len()) as u64,
                documents.last().len() as u64,
            ),
        )
    }
}

/// Documents appended one after another to a log whose scan consumes it up
/// to its end are found by a later scan, each at the offset where it was
/// written, after the frames the log already held.
pub proof fn law_documents_written_in_turn_are_found(log: Seq<u8>, documents: Seq<Seq<u8>>)
    requires
        log.len() + concat_documents(documents).len() <= u64::MAX,
        frames_from(log, 0) is Ok,
        frames_end(frames_from(log, 0)->Ok_0, 0) == log.len(),
        forall|i: int| 0 <= i < documents.len() ==> whole_document(#[trigger] documents[i]),
    ensures
        frames_from(log + concat_documents(documents), 0) == Ok::<Seq<(u64, u64)>, u64>(
            frames_from(log, 0)->Ok_0 + written_frames(log.len() as int, documents),
        ),
        frames_end(frames_from(log, 0)->Ok_0 + written_frames(log.len() as int, documents), 0)
            == log.len() + concat_documents(documents).len(),
    decreases documents.len(),
{
    let old_frames = frames_from(log, 0)->Ok_0;
    if documents.len() == 0 {
        assert(log + concat_documents(documents) =~= log);
        assert(old_frames + written_frames(log.len() as int, documents) =~= old_frames);
    } else {
        let earlier = documents.drop_last();
        let last = documents.last();
        assert forall|i: int| 0 <= i < earlier.len() implies whole_document(
            #[trigger] earlier[i],
        ) by {
            assert(earlier[i] == documents[i]);
        }
        assert(whole_document(documents[documents.len() - 1]));
        law_documents_written_in_turn_are_found(log, earlier);
        let prefix = log + concat_documents(earlier);
        let found = old_frames + written_frames(log.len() as int, earlier);
        law_appended_document_is_found(prefix, last);
        assert(log + concat_documents(documents) =~= prefix + last);
        assert(found.push((prefix.len() as u64, last.len() as u64)) =~= old_frames
            + written_frames(log.len() as int, documents));
    }
}

/// Each document written in turn from `start` lands at `start` plus the
/// sizes of the documents written before it.
pub proof fn lemma_written_frames_offsets(start: int, documents: Seq<Seq<u8>>)
    ensures
        written_frames(start, documents).len() == documents.len(),
        forall|i: int|
            0 <= i < documents.len() ==> #[trigger] written_frames(start, documents)[i] == (
                (start + concat_documents(documents.take(i)).len()) as u64,
                documents[i].len() as u64,
            ),
    decreases documents.len(),
{
    if documents.len() > 0 {
        let earlier = documents.drop_last();
        lemma_written_frames_offsets(start, earlier);
        assert forall|i: int|
            0 <= i < documents.len() implies #[trigger] written_frames(start, documents)[i] == (
            (start + concat_documents(documents.take(i)).len()) as u64,
            documents[i].len() as u64,
        ) by {
            if i < earlier.len() {
                assert(earlier.take(i) =~= documents.take(i));
                assert(earlier[i] == documents[i]);
            } else {
                assert(documents.take(i) =~= earlier);
            }
        }
    }
}

/// The four little-endian bytes of `n`, least significant first.
pub open spec fn le_bytes_of(n: u32) -> Seq<u8> {
    seq![(n % 256) as u8, (n / 256 % 256) as u8, (n / 65536 % 256) as u8, (n / 16777216) as u8]
}

/// A length prefix written as the four little-endian bytes of a length below
/// 2^31 reads back as that length, whatever follows it.
pub proof fn law_length_prefix_reads_back(n: u32, rest: Seq<u8>)
    requires
        n < 0x8000_0000,
    ensures
        le_i32_at(le_bytes_of(n) + rest, 0) == n,
{
    let b = le_bytes_of(n) + rest;
    assert(b[0] == (n % 256) as u8);
    assert(b[1] == (n / 256 % 256) as u8);
    assert(b[2] == (n / 65536 % 256) as u8);
    assert(b[3] == (n / 16777216) as u8);
    assert(n == n % 256 + (n / 256 % 256) * 256 + (n / 65536 % 256) * 65536 + (n / 16777216)
        * 16777216) by (nonlinear_arith);
    assert(n / 16777216 < 128) by (nonlinear_arith)
        requires
            n < 0x8000_0000,
    ;
}

/// A document as an encoder writes it, of any length from 5 to 2^31 - 1:
/// its length as a little-endian prefix, then its body, closed by a zero
/// byte. It is one whole document, and a scan finds exactly it.
pub proof fn law_encoded_document_is_framed(n: u32, body: Seq<u8>)
    requires
        5 <= n < 0x8000_0000,
        body.len() + 4 == n,
        body.last() == 0,
    ensures
        whole_document(le_bytes_of(n) + body),
        frames_from(le_bytes_of(n) + body, 0) == Ok::<Seq<(u64, u64)>, u64>(seq![(0u64, n as u64)]),
{
    let d = le_bytes_of(n) + body;
    law_length_prefix_reads_back(n, body);
    assert(d[n - 1] == body[body.len() - 1]);
    assert(document_at(d, 0));
    assert(frames_from(d, n as int) == Ok::<Seq<(u64, u64)>, u64>(Seq::empty()));
    assert(seq![(0u64, n as u64)] + Seq::<(u64, u64)>::empty() =~= seq![(0u64, n as u64)]);
}

} // verus!
