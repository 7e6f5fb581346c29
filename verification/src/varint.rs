//! Unsigned LEB128: whole numbers written seven bits to a byte, the low bits
//! first, with the top bit of a byte set where more bytes follow.
//!
//! A number of 64 bits takes at most ten bytes. A reader stops at the first
//! byte whose top bit is clear; what follows that byte is not part of the
//! number.

use vstd::prelude::*;

verus! {

/// The longest encoding of a number that fits in 64 bits.
pub const MAX_BYTES: usize = 10;

/// The encoding of `n` in as few bytes as it takes.
pub open spec fn encode(n: nat) -> Seq<u8>
    decreases n,
{
    if n < 128 {
        seq![n as u8]
    } else {
        seq![(n % 128 + 128) as u8] + encode(n / 128)
    }
}

/// The number that stands at the start of `bytes`, with the count of bytes it
/// takes; `None` where the bytes end before a byte with a clear top bit.
pub open spec fn decode(bytes: Seq<u8>) -> Option<(nat, nat)>
    decreases bytes.len(),
{
    if bytes.len() == 0 {
        None
    } else if bytes[0] < 128 {
        Some((bytes[0] as nat, 1nat))
    } else {
        match decode(bytes.skip(1)) {
            None => None,
            Some((value, count)) => Some(((bytes[0] - 128) as nat + 128 * value, count + 1)),
        }
    }
}

/// The number of 64 bits that stands at the start of `bytes`, with the count
/// of bytes it takes. A number is refused where it takes more than ten bytes,
/// whatever its value, and where its value does not fit in 64 bits.
pub open spec fn decode_u64(bytes: Seq<u8>) -> Option<(u64, nat)> {
    match decode(bytes) {
        None => None,
        Some((value, count)) => if count <= MAX_BYTES && value <= u64::MAX {
            Some((value as u64, count))
        } else {
            None
        },
    }
}

/// Every byte of `bytes` before `n` has its top bit set.
pub open spec fn continues_until(bytes: Seq<u8>, n: int) -> bool {
    &&& 0 <= n <= bytes.len()
    &&& forall|i: int| 0 <= i < n ==> bytes[i] >= 128
}

/// Bytes with the top bit set in front of a number make it longer and no
/// smaller; in front of nothing they make nothing.
pub proof fn lemma_decode_after_continuation(bytes: Seq<u8>, n: int)
    requires
        continues_until(bytes, n),
    ensures
        match decode(bytes.skip(n)) {
            None => decode(bytes) is None,
            Some((value, count)) => decode(bytes) matches Some((whole, total)) && whole >= value
                && total == count + n,
        },
    decreases n,
{
    if n == 0 {
        assert(bytes.skip(0) =~= bytes);
    } else {
        let tail = bytes.skip(1);
        assert(continues_until(tail, n - 1)) by {
            assert forall|i: int| 0 <= i < n - 1 implies tail[i] >= 128 by {
                assert(tail[i] == bytes[i + 1]);
            }
        }
        assert(tail.skip(n - 1) =~= bytes.skip(n));
        lemma_decode_after_continuation(tail, n - 1);
    }
}

/// A reader looks at the number only: what follows it changes nothing.
pub proof fn lemma_decode_ignores_rest(bytes: Seq<u8>, rest: Seq<u8>)
    requires
        decode(bytes) is Some,
    ensures
        decode(bytes + rest) == decode(bytes),
    decreases bytes.len(),
{
    let all = bytes + rest;
    assert(all[0] == bytes[0]);
    if bytes[0] >= 128 {
        assert(all.skip(1) =~= bytes.skip(1) + rest);
        lemma_decode_ignores_rest(bytes.skip(1), rest);
    }
}

/// What is written is read back: the encoding of `n`, followed by anything,
/// decodes to `n` and to the length of the encoding.
pub proof fn lemma_round_trip(n: nat, rest: Seq<u8>)
    ensures
        decode(encode(n) + rest) == Some((n, encode(n).len())),
    decreases n,
{
    let all = encode(n) + rest;
    if n < 128 {
        assert(all[0] == n as u8);
    } else {
        let first = (n % 128 + 128) as u8;
        assert(all[0] == first);
        assert(all.skip(1) =~= encode(n / 128) + rest);
        lemma_round_trip(n / 128, rest);
        assert((first - 128) as nat + 128 * (n / 128) == n);
    }
}

/// The encoding of a number that fits in 64 bits takes at most ten bytes.
pub proof fn lemma_encode_len(n: nat)
    requires
        n <= u64::MAX,
    ensures
        1 <= encode(n).len() <= MAX_BYTES,
{
    reveal_with_fuel(encode, 11);
    let n1 = n / 128;
    let n2 = n1 / 128;
    let n3 = n2 / 128;
    let n4 = n3 / 128;
    let n5 = n4 / 128;
    let n6 = n5 / 128;
    let n7 = n6 / 128;
    let n8 = n7 / 128;
    let n9 = n8 / 128;
    assert(n9 < 128);
}

/// What is written is read back, for every number of 64 bits: writing `n` and
/// reading the bytes, followed by anything, gives `n` again.
pub proof fn lemma_round_trip_u64(n: u64, rest: Seq<u8>)
    ensures
        decode_u64(encode(n as nat) + rest) == Some((n, encode(n as nat).len())),
{
    lemma_round_trip(n as nat, rest);
    lemma_encode_len(n as nat);
}

/// All bytes of an encoding but the last have the top bit set, and the last
/// has it clear.
pub proof fn lemma_encode_shape(n: nat)
    ensures
        encode(n).len() >= 1,
        continues_until(encode(n), encode(n).len() - 1),
        encode(n).last() < 128,
    decreases n,
{
    if n >= 128 {
        let head = seq![(n % 128 + 128) as u8];
        let tail = encode(n / 128);
        lemma_encode_shape(n / 128);
        let all = encode(n);
        assert(all =~= head + tail);
        assert forall|i: int| 0 <= i < all.len() - 1 implies all[i] >= 128 by {
            if i > 0 {
                assert(all[i] == tail[i - 1]);
            }
        }
        assert(all.last() == tail.last());
    }
}

/// A cut encoding is refused: the first `keep` bytes of the encoding of `n`,
/// where at least one byte is missing, do not decode.
pub proof fn lemma_truncated_is_refused(n: nat, keep: int)
    requires
        0 <= keep < encode(n).len(),
    ensures
        decode(encode(n).take(keep)) is None,
        decode_u64(encode(n).take(keep)) is None,
{
    lemma_encode_shape(n);
    let cut = encode(n).take(keep);
    assert(continues_until(cut, keep));
    assert(cut.skip(keep) =~= Seq::<u8>::empty());
    lemma_decode_after_continuation(cut, keep);
}

/// Reads the number of 64 bits at the start of `bytes`.
///
/// Gives the number and the count of bytes it takes; bytes after those are not
/// looked at. Gives `None` where the bytes end before the number does, where
/// the number takes more than ten bytes, and where it does not fit in 64 bits.
pub fn decode_unsigned(bytes: &[u8]) -> (r: Option<(u64, usize)>)
    ensures
        match r {
            None => decode_u64(bytes@) is None,
            Some((value, count)) => decode_u64(bytes@) == Some((value, count as nat)),
        },
{
    let mut end: usize = 0;
    while end < bytes.len() && end < MAX_BYTES && bytes[end] >= 128
        invariant
            end <= MAX_BYTES,
            continues_until(bytes@, end as int),
        decreases bytes.len() - end,
    {
        end += 1;
    }
    if end >= bytes.len() || end >= MAX_BYTES {
        proof {
            lemma_decode_after_continuation(bytes@, end as int);
            if end >= bytes.len() {
                assert(bytes@.skip(end as int) =~= Seq::<u8>::empty());
            }
        }
        return None;
    }
    let mut value: u64 = bytes[end] as u64;
    let mut at: usize = end;
    proof {
        assert(bytes@.skip(at as int)[0] == bytes@[at as int]);
    }
    while at > 0
        invariant
            at <= end < bytes.len(),
            end < MAX_BYTES,
            continues_until(bytes@, end as int),
            decode(bytes@.skip(at as int)) == Some((value as nat, (end - at + 1) as nat)),
        decreases at,
    {
        let low: u64 = (bytes[at - 1] - 128) as u64;
        let ghost tail = bytes@.skip(at - 1);
        proof {
            assert(tail[0] == bytes@[at - 1]);
            assert(tail.skip(1) =~= bytes@.skip(at as int));
        }
        if value > (u64::MAX - low) / 128 {
            proof {
                assert(continues_until(bytes@, at - 1));
                lemma_decode_after_continuation(bytes@, at - 1);
            }
            return None;
        }
        value = low + 128 * value;
        at -= 1;
    }
    proof {
        assert(bytes@.skip(0) =~= bytes@);
    }
    Some((value, end + 1))
}

/// Writes `n` in as few bytes as it takes.
pub fn encode_unsigned(n: u64) -> (bytes: Vec<u8>)
    ensures
        bytes@ == encode(n as nat),
        1 <= bytes@.len() <= MAX_BYTES,
{
    let mut bytes: Vec<u8> = Vec::new();
    let mut left: u64 = n;
    while left >= 128
        invariant
            bytes@ + encode(left as nat) == encode(n as nat),
        decreases left,
    {
        let low: u8 = (left % 128) as u8;
        proof {
            assert(bytes@.push((low + 128) as u8) + encode((left / 128) as nat) =~= bytes@ + encode(
                left as nat,
            ));
        }
        bytes.push(low + 128);
        left = left / 128;
    }
    proof {
        assert(bytes@.push(left as u8) =~= bytes@ + encode(left as nat));
        lemma_encode_len(n as nat);
    }
    bytes.push(left as u8);
    bytes
}

} // verus!
