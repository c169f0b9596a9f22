//! Whole streams: what a stream of stored shots decodes to, and where a seek
//! lands in it.

use vstd::prelude::*;

use crate::encoding::{holds_at, lemma_holds_at_middle, lemma_shot_round_trip, ShotRecord};
use crate::layout::{
    lemma_shot_accounts_for_offset, lemma_shot_start_none_beyond, shot_at, shot_start, shots_from,
    Decoded, Failure, ShotView,
};

verus! {

/// The stored form of a run of shots: one record after the other, from the
/// first byte of the stream, with nothing between them and nothing after.
pub open spec fn stream_bytes(records: Seq<ShotRecord>) -> Seq<u8>
    decreases records.len(),
{
    if records.len() == 0 {
        Seq::empty()
    } else {
        stream_bytes(records.drop_last()) + records.last().bytes()
    }
}

/// Every shot of the run can be stored.
pub open spec fn encodable(records: Seq<ShotRecord>) -> bool {
    forall|i: int| 0 <= i < records.len() ==> (#[trigger] records[i]).encodable()
}

/// The shots are numbered from one, in steps of one.
pub open spec fn numbered(records: Seq<ShotRecord>) -> bool {
    forall|i: int| 0 <= i < records.len() ==> (#[trigger] records[i]).number == i + 1
}

/// The byte of the stream at which the record with index `i` starts, counted
/// from zero. For `i` the number of records it is the end of the stream.
pub open spec fn record_start(records: Seq<ShotRecord>, i: int) -> int {
    stream_bytes(records.take(i)).len() as int
}

/// The items that a reader yields for a run of shots, when nothing fails.
pub open spec fn shots_of(records: Seq<ShotRecord>) -> Seq<Result<ShotView, Failure>> {
    records.map_values(|record: ShotRecord| Ok::<ShotView, Failure>(record.shot()))
}

/// The stored form of two runs, one after the other, is the two stored forms,
/// one after the other.
pub proof fn lemma_stream_bytes_add(first: Seq<ShotRecord>, second: Seq<ShotRecord>)
    ensures
        stream_bytes(first + second) == stream_bytes(first) + stream_bytes(second),
    decreases second.len(),
{
    if second.len() > 0 {
        assert((first + second).drop_last() =~= first + second.drop_last());
        lemma_stream_bytes_add(first, second.drop_last());
    }
}

/// The stream holds each record at its start, and the next record starts
/// where it ends.
pub proof fn lemma_record_in_stream(records: Seq<ShotRecord>, i: int)
    requires
        0 <= i < records.len(),
    ensures
        holds_at(stream_bytes(records), record_start(records, i), records[i].bytes()),
        record_start(records, i + 1) == record_start(records, i) + records[i].bytes().len(),
        record_start(records, records.len() as int) == stream_bytes(records).len(),
{
    let before = records.take(i);
    let upto = records.take(i + 1);
    let after = records.skip(i + 1);
    assert(upto.drop_last() =~= before);
    assert(upto + after =~= records);
    assert(records.take(records.len() as int) =~= records);
    lemma_stream_bytes_add(upto, after);
    lemma_holds_at_middle(stream_bytes(before), records[i].bytes(), stream_bytes(after));
}

/// Each record of a stored stream decodes, at its start, to the shot it
/// stores, and ends where the next record starts.
pub proof fn lemma_record_decodes(records: Seq<ShotRecord>, i: int)
    requires
        encodable(records),
        0 <= i < records.len(),
    ensures
        shot_at(stream_bytes(records), record_start(records, i)) == (Decoded::Shot {
            shot: records[i].shot(),
            end: record_start(records, i + 1),
        }),
        record_start(records, i) + 10 <= record_start(records, i + 1) <= stream_bytes(
            records,
        ).len(),
{
    lemma_record_in_stream(records, i);
    lemma_shot_round_trip(records[i], stream_bytes(records), record_start(records, i));
    lemma_shot_accounts_for_offset(stream_bytes(records), record_start(records, i));
}

/// From the start of any record on, a reader of a stored stream yields the
/// shots from that record to the last, and no failure.
pub proof fn lemma_shots_from_record(records: Seq<ShotRecord>, i: int)
    requires
        encodable(records),
        0 <= i <= records.len(),
    ensures
        shots_from(stream_bytes(records), record_start(records, i)) == shots_of(records).skip(i),
    decreases records.len() - i,
{
    if i == records.len() {
        assert(records.take(i) =~= records);
    } else {
        lemma_record_decodes(records, i);
        lemma_shots_from_record(records, i + 1);
        assert(seq![Ok::<ShotView, Failure>(records[i].shot())] + shots_of(records).skip(i + 1)
            =~= shots_of(records).skip(i));
    }
}

/// Decoding a stored stream from its first byte yields its shots, each with
/// the values that were stored, in order, and then ends cleanly.
pub proof fn lemma_stream_round_trip(records: Seq<ShotRecord>)
    requires
        encodable(records),
    ensures
        shots_from(stream_bytes(records), 0) == shots_of(records),
{
    lemma_shots_from_record(records, 0);
}

/// In a stream whose shots are numbered from one in steps of one, the numbers
/// of the decoded shots are 1, 2, 3 and so on without a gap, and there are as
/// many of them as the stream has records.
pub proof fn lemma_numbers_count_up(records: Seq<ShotRecord>)
    requires
        encodable(records),
        numbered(records),
    ensures
        shots_from(stream_bytes(records), 0).len() == records.len(),
        forall|i: int|
            0 <= i < records.len() ==> (#[trigger] shots_from(stream_bytes(records), 0)[i]
                matches Ok(shot) && shot.number == i + 1),
{
    lemma_stream_round_trip(records);
}

/// A seek in a stored stream finds every record, and the end of the stream as
/// the start of the record after the last.
pub proof fn lemma_seek_finds_record(records: Seq<ShotRecord>, number: nat)
    requires
        encodable(records),
        1 <= number <= records.len() + 1,
    ensures
        shot_start(stream_bytes(records), number) == Some(record_start(records, number - 1)),
    decreases number,
{
    if number > 1 {
        lemma_seek_finds_record(records, (number - 1) as nat);
        lemma_record_decodes(records, number - 2);
        lemma_shot_accounts_for_offset(stream_bytes(records), record_start(records, number - 2));
    }
}

/// The bounds of seeking in a stored stream of `n` shots: there is no shot 0;
/// a seek to shot `n + 1` arrives at the end of the stream, where the next
/// read ends cleanly; and no shot beyond that can be reached.
pub proof fn lemma_seek_bounds(records: Seq<ShotRecord>, number: nat)
    requires
        encodable(records),
    ensures
        number == 0 ==> shot_start(stream_bytes(records), number) is None,
        number == records.len() + 1 ==> shot_start(stream_bytes(records), number) == Some(
            stream_bytes(records).len() as int,
        ),
        number == records.len() + 1 ==> shot_at(
            stream_bytes(records),
            shot_start(stream_bytes(records), number)->Some_0,
        ) is End,
        number > records.len() + 1 ==> shot_start(stream_bytes(records), number) is None,
{
    let s = stream_bytes(records);
    let n = records.len();
    lemma_seek_finds_record(records, n + 1);
    assert(records.take(n as int) =~= records);
    if number > n + 1 {
        lemma_shot_start_none_beyond(s, n + 2, number);
    }
}

/// In a stream whose shots are numbered from one in steps of one, the read
/// after a seek to a shot of the stream decodes the shot with that number.
pub proof fn lemma_seek_then_read(records: Seq<ShotRecord>, number: nat)
    requires
        encodable(records),
        numbered(records),
        1 <= number <= records.len(),
    ensures
        shot_start(stream_bytes(records), number) is Some,
        shot_at(stream_bytes(records), shot_start(stream_bytes(records), number)->Some_0) is Shot,
        shot_at(
            stream_bytes(records),
            shot_start(stream_bytes(records), number)->Some_0,
        )->shot == records[number - 1].shot(),
        records[number - 1].shot().number == number,
{
    lemma_seek_finds_record(records, number);
    lemma_record_decodes(records, number - 1);
}

} // verus!
