//! The model of the hidden bit stream: one bit per container byte, in its
//! lowest bit, eight of them to a message byte, most significant bit first.

use vstd::prelude::*;

verus! {

/// The lowest bit of a container byte, as 0 or 1.
pub open spec fn lsb(byte: u8) -> u8 {
    byte & 1
}

/// Bit `j` of `byte`, as 0 or 1, where bit 0 is the most significant.
pub open spec fn bit_at(byte: u8, j: u8) -> u8 {
    (byte >> ((7 - j) as u8)) & 1
}

/// Bit `p` of the stream that `text` spells: bit `p % 8` of byte `p / 8`.
pub open spec fn payload_bit(text: Seq<u8>, p: int) -> u8 {
    bit_at(text[p / 8], (p % 8) as u8)
}

/// `carrier` with its lowest bit replaced by `bit`.
pub open spec fn with_lsb(carrier: u8, bit: u8) -> u8 {
    (carrier & 0xfe) | bit
}

/// Whether the bits of `text_len` bytes fit into a buffer of `image_len`
/// bytes from index `start` on.
pub open spec fn fits(image_len: nat, text_len: nat, start: int) -> bool {
    start + 8 * text_len <= image_len
}

/// `image` after the bits of `text` were written from index `start` on:
/// byte `start + p` carries bit `p` of the stream, every other byte is as before.
pub open spec fn embedded(image: Seq<u8>, text: Seq<u8>, start: int) -> Seq<u8> {
    Seq::new(
        image.len(),
        |i: int|
            if start <= i < start + 8 * text.len() {
                with_lsb(image[i], payload_bit(text, i - start))
            } else {
                image[i]
            },
    )
}

/// The byte assembled from the lowest bits of the first `bits` container
/// bytes from index `at` on: the first of them lands in the highest bit.
pub open spec fn assembled(image: Seq<u8>, at: int, bits: nat) -> u8
    decreases bits,
{
    if bits == 0 {
        0
    } else {
        assembled(image, at, (bits - 1) as nat) | (lsb(image[at + bits - 1]) << ((8 - bits) as u8))
    }
}

/// The message byte hidden in the eight container bytes from index `at` on.
pub open spec fn recovered_byte(image: Seq<u8>, at: int) -> u8 {
    assembled(image, at, 8)
}

/// The first `count` message bytes hidden in `image` from index `start` on.
pub open spec fn recovered(image: Seq<u8>, start: int, count: nat) -> Seq<u8> {
    Seq::new(count, |k: int| recovered_byte(image, start + 8 * k))
}

/// How many whole message bytes a buffer of `image_len` bytes holds from
/// index `start` on.
pub open spec fn available_bytes(image_len: nat, start: int) -> nat {
    if start <= image_len {
        ((image_len - start) / 8) as nat
    } else {
        0
    }
}

/// Replacing the lowest bit leaves the seven bits above it alone.
proof fn lemma_with_lsb_keeps_high_bits(carrier: u8, byte: u8, j: u8)
    by (bit_vector)
    ensures
        with_lsb(carrier, bit_at(byte, j)) & 0xfe == carrier & 0xfe,
{
}

/// Writing a text changes no byte outside the range written, and inside it
/// nothing but the lowest bit.
pub proof fn lemma_embedded_changes_lowest_bits_only(
    image: Seq<u8>,
    text: Seq<u8>,
    start: int,
    i: int,
)
    requires
        0 <= i < image.len(),
    ensures
        embedded(image, text, start)[i] & 0xfe == image[i] & 0xfe,
        !(start <= i < start + 8 * text.len()) ==> embedded(image, text, start)[i] == image[i],
{
    if start <= i < start + 8 * text.len() {
        let p = i - start;
        lemma_with_lsb_keeps_high_bits(image[i], text[p / 8], (p % 8) as u8);
    }
}

/// Writing `head` and then `tail` right behind it gives what writing the two
/// joined gives.
pub proof fn lemma_embedded_chain(image: Seq<u8>, head: Seq<u8>, tail: Seq<u8>, start: int)
    requires
        0 <= start,
    ensures
        embedded(embedded(image, head, start), tail, start + 8 * head.len()) == embedded(
            image,
            head + tail,
            start,
        ),
{
    let joined = head + tail;
    let once = embedded(image, head, start);
    let twice = embedded(once, tail, start + 8 * head.len());
    assert forall|i: int| 0 <= i < image.len() implies twice[i] == embedded(image, joined, start)[i] by {
        let p = i - start;
        if 0 <= p < 8 * head.len() {
            assert(joined[p / 8] == head[p / 8]);
        } else if 8 * head.len() <= p < 8 * joined.len() {
            let q = p - 8 * head.len();
            assert(q / 8 == p / 8 - head.len());
            assert(q % 8 == p % 8);
            assert(joined[p / 8] == tail[q / 8]);
        }
    }
    assert(twice =~= embedded(image, joined, start));
}

/// A byte written bit by bit into the lowest bits of eight carriers is
/// assembled again from them, whatever the carriers held.
proof fn lemma_byte_survives(t: u8, c0: u8, c1: u8, c2: u8, c3: u8, c4: u8, c5: u8, c6: u8, c7: u8)
    by (bit_vector)
    ensures
        ((((((((0u8 | (lsb(with_lsb(c0, bit_at(t, 0u8))) << 7u8)) | (lsb(with_lsb(c1, bit_at(t, 1u8)))
            << 6u8)) | (lsb(with_lsb(c2, bit_at(t, 2u8))) << 5u8)) | (lsb(
            with_lsb(c3, bit_at(t, 3u8)),
        ) << 4u8)) | (lsb(with_lsb(c4, bit_at(t, 4u8))) << 3u8)) | (lsb(with_lsb(c5, bit_at(t, 5u8)))
            << 2u8)) | (lsb(with_lsb(c6, bit_at(t, 6u8))) << 1u8)) | (lsb(
            with_lsb(c7, bit_at(t, 7u8)),
        ) << 0u8)) == t,
{
}

/// Byte `k` of a text that was written into `image` is recovered from it.
pub proof fn lemma_recovered_byte_of_embedded(image: Seq<u8>, text: Seq<u8>, start: int, k: int)
    requires
        0 <= start,
        fits(image.len(), text.len(), start),
        0 <= k < text.len(),
    ensures
        recovered_byte(embedded(image, text, start), start + 8 * k) == text[k],
{
    let marked = embedded(image, text, start);
    let at = start + 8 * k;
    let t = text[k];
    assert forall|j: int| 0 <= j < 8 implies #[trigger] marked[at + j] == with_lsb(
        image[at + j],
        bit_at(t, j as u8),
    ) by {
        let p = 8 * k + j;
        assert(p / 8 == k && p % 8 == j);
        assert(at + j - start == p);
    }
    reveal_with_fuel(assembled, 9);
    assert(marked[at + 0] == with_lsb(image[at + 0], bit_at(t, 0u8)));
    assert(marked[at + 1] == with_lsb(image[at + 1], bit_at(t, 1u8)));
    assert(marked[at + 2] == with_lsb(image[at + 2], bit_at(t, 2u8)));
    assert(marked[at + 3] == with_lsb(image[at + 3], bit_at(t, 3u8)));
    assert(marked[at + 4] == with_lsb(image[at + 4], bit_at(t, 4u8)));
    assert(marked[at + 5] == with_lsb(image[at + 5], bit_at(t, 5u8)));
    assert(marked[at + 6] == with_lsb(image[at + 6], bit_at(t, 6u8)));
    assert(marked[at + 7] == with_lsb(image[at + 7], bit_at(t, 7u8)));
    lemma_byte_survives(
        t,
        image[at + 0],
        image[at + 1],
        image[at + 2],
        image[at + 3],
        image[at + 4],
        image[at + 5],
        image[at + 6],
        image[at + 7],
    );
}

/// The first `count` bytes of a text that was written into `image` are
/// recovered from it.
pub proof fn lemma_recovered_of_embedded(image: Seq<u8>, text: Seq<u8>, start: int, count: nat)
    requires
        0 <= start,
        fits(image.len(), text.len(), start),
        count <= text.len(),
    ensures
        recovered(embedded(image, text, start), start, count) == text.take(count as int),
{
    let marked = embedded(image, text, start);
    assert forall|k: int| 0 <= k < count implies recovered(marked, start, count)[k] == text[k] by {
        lemma_recovered_byte_of_embedded(image, text, start, k);
    }
    assert(recovered(marked, start, count) =~= text.take(count as int));
}

} // verus!
