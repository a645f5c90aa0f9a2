//! The codec of reference-counted values: a payload followed by a signed
//! 64-bit count, little-endian, in the last eight bytes.

use vstd::bytes::lemma_auto_spec_u64_to_from_le_bytes;
use vstd::bytes::spec_u64_from_le_bytes;
use vstd::bytes::spec_u64_to_le_bytes;
use vstd::bytes::u64_from_le_bytes;
use vstd::bytes::u64_to_le_bytes;
use vstd::prelude::*;
use vstd::slice::slice_subrange;
use vstd::slice::slice_to_vec;

verus! {

/// Width of the count at the end of a stored value.
pub const COUNT_WIDTH: usize = 8;

/// The eight bytes of a count.
pub open spec fn count_bytes(count: i64) -> Seq<u8> {
    spec_u64_to_le_bytes(count as u64)
}

/// A payload and a count as they are stored.
pub open spec fn encoded(payload: Seq<u8>, count: i64) -> Seq<u8> {
    payload + count_bytes(count)
}

/// The payload of a stored value: all but its last eight bytes. A value
/// shorter than a count has none.
pub open spec fn payload_of(bytes: Seq<u8>) -> Seq<u8> {
    if bytes.len() < 8 {
        Seq::empty()
    } else {
        bytes.subrange(0, bytes.len() - 8)
    }
}

/// The count of a stored value: its last eight bytes. A value shorter than
/// a count counts as zero.
pub open spec fn count_of(bytes: Seq<u8>) -> i64 {
    if bytes.len() < 8 {
        0
    } else {
        spec_u64_from_le_bytes(bytes.subrange(bytes.len() - 8, bytes.len() as int)) as i64
    }
}

/// What a reader sees of a stored value: its payload where the count is
/// positive, nothing otherwise.
pub open spec fn stripped(bytes: Seq<u8>) -> Option<Seq<u8>> {
    if count_of(bytes) > 0 {
        Some(payload_of(bytes))
    } else {
        None
    }
}

/// The sum of two counts in 64-bit two's complement.
pub open spec fn count_sum(x: i64, y: i64) -> i64 {
    if x + y > i64::MAX {
        (x + y - 0x1_0000_0000_0000_0000) as i64
    } else if x + y < i64::MIN {
        (x + y + 0x1_0000_0000_0000_0000) as i64
    } else {
        (x + y) as i64
    }
}

/// What is stored, if anything, read as a value: nothing reads as the empty
/// value.
pub open spec fn held(existing: Option<Seq<u8>>) -> Seq<u8> {
    match existing {
        Some(bytes) => bytes,
        None => Seq::empty(),
    }
}

/// A delta merged into what is stored: the counts are summed, and the
/// delta's payload is kept unless it is empty.
pub open spec fn merged(existing: Option<Seq<u8>>, delta: Seq<u8>) -> Seq<u8> {
    let payload = if payload_of(delta).len() > 0 {
        payload_of(delta)
    } else {
        payload_of(held(existing))
    };
    encoded(payload, count_sum(count_of(held(existing)), count_of(delta)))
}

/// Decoding an encoded pair gives the pair back.
pub proof fn lemma_decode_encoded(payload: Seq<u8>, count: i64)
    ensures
        encoded(payload, count).len() == payload.len() + 8,
        payload_of(encoded(payload, count)) == payload,
        count_of(encoded(payload, count)) == count,
{
    lemma_auto_spec_u64_to_from_le_bytes();
    let e = encoded(payload, count);
    assert(e.subrange(0, e.len() - 8) =~= payload);
    assert(e.subrange(e.len() - 8, e.len() as int) =~= count_bytes(count));
    assert((count as u64) as i64 == count) by (bit_vector);
}

/// A value of at least eight bytes is the encoding of its payload and
/// count.
pub proof fn lemma_encoded_decode(bytes: Seq<u8>)
    requires
        bytes.len() >= 8,
    ensures
        encoded(payload_of(bytes), count_of(bytes)) == bytes,
{
    lemma_auto_spec_u64_to_from_le_bytes();
    let tail = bytes.subrange(bytes.len() - 8, bytes.len() as int);
    let x = spec_u64_from_le_bytes(tail);
    assert((x as i64) as u64 == x) by (bit_vector);
    assert(spec_u64_to_le_bytes(spec_u64_from_le_bytes(tail)) == tail);
    assert(encoded(payload_of(bytes), count_of(bytes)) =~= bytes);
}

/// The count of a merge is the sum of the two counts, whichever is merged
/// into which, and its payload is the delta's unless that is empty.
pub proof fn lemma_merged(existing: Option<Seq<u8>>, delta: Seq<u8>)
    ensures
        count_of(merged(existing, delta)) == count_sum(count_of(held(existing)), count_of(delta)),
        count_of(merged(existing, delta)) == count_of(merged(Some(delta), held(existing))),
        payload_of(delta).len() > 0 ==> payload_of(merged(existing, delta)) == payload_of(delta),
        payload_of(delta).len() == 0 ==> payload_of(merged(existing, delta)) == payload_of(
            held(existing),
        ),
        merged(existing, delta).len() >= 8,
{
    let a = existing;
    let b = Some(delta);
    let pa = if payload_of(delta).len() > 0 {
        payload_of(delta)
    } else {
        payload_of(held(a))
    };
    let pb = if payload_of(held(a)).len() > 0 {
        payload_of(held(a))
    } else {
        payload_of(held(b))
    };
    lemma_decode_encoded(pa, count_sum(count_of(held(a)), count_of(delta)));
    lemma_decode_encoded(pb, count_sum(count_of(delta), count_of(held(a))));
}

/// Summing counts is associative and commutative.
pub proof fn lemma_count_sum_associative(x: i64, y: i64, z: i64)
    ensures
        count_sum(count_sum(x, y), z) == count_sum(x, count_sum(y, z)),
        count_sum(x, y) == count_sum(y, x),
{
}

/// Merging three values gives one count, however they are grouped.
pub proof fn lemma_merged_associative(a: Seq<u8>, b: Seq<u8>, c: Seq<u8>)
    ensures
        count_of(merged(Some(merged(Some(a), b)), c)) == count_of(
            merged(Some(a), merged(Some(b), c)),
        ),
{
    lemma_merged(Some(a), b);
    lemma_merged(Some(merged(Some(a), b)), c);
    lemma_merged(Some(b), c);
    lemma_merged(Some(a), merged(Some(b), c));
    lemma_count_sum_associative(count_of(a), count_of(b), count_of(c));
}

/// What a list of deltas, merged in order into what is stored, leaves.
pub open spec fn merge_all(start: Option<Seq<u8>>, deltas: Seq<Seq<u8>>) -> Option<Seq<u8>>
    decreases deltas.len(),
{
    if deltas.len() == 0 {
        start
    } else {
        Some(merged(merge_all(start, deltas.drop_last()), deltas.last()))
    }
}

/// The sum of the counts of a list of deltas.
pub open spec fn total_count(deltas: Seq<Seq<u8>>) -> int
    decreases deltas.len(),
{
    if deltas.len() == 0 {
        0
    } else {
        total_count(deltas.drop_last()) + count_of(deltas.last())
    }
}

/// The sum of the counts of the deltas up to any position fits in 64 bits.
pub open spec fn counts_fit(deltas: Seq<Seq<u8>>) -> bool
    decreases deltas.len(),
{
    deltas.len() == 0 || (counts_fit(deltas.drop_last()) && i64::MIN <= total_count(deltas)
        <= i64::MAX)
}

/// The payload of the last delta that has one; empty where none has.
pub open spec fn last_payload(deltas: Seq<Seq<u8>>) -> Seq<u8>
    decreases deltas.len(),
{
    if deltas.len() == 0 {
        Seq::empty()
    } else if payload_of(deltas.last()).len() > 0 {
        payload_of(deltas.last())
    } else {
        last_payload(deltas.drop_last())
    }
}

/// Deltas merged one after the other under a key that held nothing leave
/// the sum of their counts and the payload of the last delta that has one:
/// a reader sees that payload if and only if the sum is positive.
pub proof fn lemma_merge_all(deltas: Seq<Seq<u8>>)
    requires
        deltas.len() > 0,
        counts_fit(deltas),
    ensures
        merge_all(None, deltas) is Some,
        count_of(merge_all(None, deltas).unwrap()) == total_count(deltas),
        payload_of(merge_all(None, deltas).unwrap()) == last_payload(deltas),
        stripped(merge_all(None, deltas).unwrap()) == if total_count(deltas) > 0 {
            Some(last_payload(deltas))
        } else {
            None
        },
    decreases deltas.len(),
{
    let rest = deltas.drop_last();
    lemma_merged(merge_all(None, rest), deltas.last());
    if rest.len() > 0 {
        lemma_merge_all(rest);
    } else {
        assert(merge_all(None, rest) is None);
        assert(total_count(rest) == 0);
        assert(payload_of(Seq::<u8>::empty()) =~= last_payload(rest));
    }
}

/// The stored form of `payload` with `count`.
pub fn encode(payload: &[u8], count: i64) -> (r: Vec<u8>)
    ensures
        r@ == encoded(payload@, count),
{
    let mut r = slice_to_vec(payload);
    let mut tail = u64_to_le_bytes(count as u64);
    r.append(&mut tail);
    r
}

/// The payload and the count of a stored value.
pub fn decode(bytes: &[u8]) -> (r: (&[u8], i64))
    ensures
        r.0@ == payload_of(bytes@),
        r.1 == count_of(bytes@),
{
    let n = bytes.len();
    if n < COUNT_WIDTH {
        let r = slice_subrange(bytes, 0, 0);
        assert(r@ =~= Seq::<u8>::empty());
        (r, 0)
    } else {
        let payload = slice_subrange(bytes, 0, n - COUNT_WIDTH);
        let tail = slice_subrange(bytes, n - COUNT_WIDTH, n);
        (payload, u64_from_le_bytes(tail) as i64)
    }
}

/// The payload of a stored value whose count is positive.
pub fn strip(bytes: &[u8]) -> (r: Option<Vec<u8>>)
    ensures
        r is Some == stripped(bytes@) is Some,
        r is Some ==> r.unwrap()@ == stripped(bytes@).unwrap(),
{
    let (payload, count) = decode(bytes);
    if count > 0 {
        Some(slice_to_vec(payload))
    } else {
        None
    }
}

/// Merges `delta` into what is stored.
pub fn merge(existing: Option<&[u8]>, delta: &[u8]) -> (r: Vec<u8>)
    ensures
        r@ == merged(
            match existing {
                Some(bytes) => Some(bytes@),
                None => None,
            },
            delta@,
        ),
{
    let (new_payload, new_count) = decode(delta);
    match existing {
        Some(bytes) => {
            let (old_payload, old_count) = decode(bytes);
            let count = old_count.wrapping_add(new_count);
            if new_payload.len() > 0 {
                encode(new_payload, count)
            } else {
                encode(old_payload, count)
            }
        },
        None => {
            let empty = slice_subrange(delta, 0, 0);
            assert(empty@ =~= Seq::<u8>::empty());
            if new_payload.len() > 0 {
                encode(new_payload, new_count)
            } else {
                encode(empty, new_count)
            }
        },
    }
}


/// Merges a list of deltas, in order, into what is stored: what a storage
/// engine asks for when it combines several updates of one key.
pub fn merge_operands(existing: Option<&[u8]>, operands: &Vec<Vec<u8>>) -> (r: Option<Vec<u8>>)
    ensures
        match r {
            Some(bytes) => Some(bytes@),
            None => None,
        } == merge_all(
            match existing {
                Some(bytes) => Some(bytes@),
                None => None,
            },
            Seq::new(operands.len() as nat, |i: int| operands[i]@),
        ),
{
    let ghost start = match existing {
        Some(bytes) => Some(bytes@),
        None => None,
    };
    let ghost deltas = Seq::new(operands.len() as nat, |i: int| operands[i]@);
    let mut held: Option<Vec<u8>> = match existing {
        Some(bytes) => Some(slice_to_vec(bytes)),
        None => None,
    };
    let mut i: usize = 0;
    while i < operands.len()
        invariant
            i <= operands.len(),
            deltas == Seq::new(operands.len() as nat, |i: int| operands[i]@),
            match held {
                Some(bytes) => Some(bytes@),
                None => None,
            } == merge_all(start, deltas.take(i as int)),
        decreases operands.len() - i,
    {
        assert(deltas.take(i + 1).drop_last() =~= deltas.take(i as int));
        assert(deltas.take(i + 1).last() == operands[i as int]@);
        let next = match &held {
            Some(bytes) => merge(Some(bytes.as_slice()), operands[i].as_slice()),
            None => merge(None, operands[i].as_slice()),
        };
        held = Some(next);
        i += 1;
    }
    assert(deltas.take(operands.len() as int) =~= deltas);
    held
}

} // verus!
