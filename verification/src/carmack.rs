use crate::error::MapError;
use crate::util::le_u16;
use crate::util::pad_to;
use crate::util::padded;
use vstd::prelude::*;

verus! {

/// Tag byte of a back-reference relative to the end of the output.
pub const NEARTAG: u8 = 0xa7;

/// Tag byte of a back-reference to an absolute word of the output.
pub const FARTAG: u8 = 0xa8;

/// How the offset of a far back-reference counts the words of the output.
/// Data files of both kinds exist; nothing in a file says which it is.
#[derive(Clone, Copy, Debug, PartialEq, Eq, Structural)]
pub enum FarOffset {
    /// Offset 0 is the first word of the output.
    FromZero,
    /// Offset 1 is the first word of the output, and offset 0 is no word.
    FromOne,
}

/// The byte of the output at which a far back-reference with the given word
/// offset starts; negative where the offset names no word.
pub open spec fn far_start(offset: int, far: FarOffset) -> int {
    match far {
        FarOffset::FromZero => 2 * offset,
        FarOffset::FromOne => 2 * (offset - 1),
    }
}

/// `out` after `n` bytes were appended one by one, the k-th of them a copy of
/// the byte at `start + k` of what stood there at that moment. Source and
/// destination may overlap: a byte that was just written can be read again.
pub open spec fn copy_forward(out: Seq<u8>, start: int, n: nat) -> Seq<u8>
    decreases n,
{
    if n == 0 {
        out
    } else {
        copy_forward(out.push(out[start]), start + 1, (n - 1) as nat)
    }
}

/// The number of words that a back-reference with the given count yields
/// when `words` are still owed: a run is cut where it would overshoot.
pub open spec fn run_words(count: u8, words: nat) -> nat {
    if count as nat <= words {
        count as nat
    } else {
        words
    }
}

/// The token loop, from input position `pos` with `out` written and `words`
/// words still owed. It ends when nothing is owed or when fewer than two
/// input bytes are left, and then gives the output and the input position.
///
/// A token is two bytes, `(count, tag)`. With a tag other than the two tag
/// bytes, the token is a literal word. With a tag byte and count 0, the next
/// byte and the tag are a literal word. Otherwise `count` words are copied:
/// for the near tag from `2 * offset` bytes before the end of the output
/// (one offset byte), for the far tag from the byte `far_start` of the
/// output (two offset bytes, low first).
pub open spec fn carmack_tokens(
    data: Seq<u8>,
    pos: int,
    out: Seq<u8>,
    words: nat,
    far: FarOffset,
) -> Result<(Seq<u8>, int), MapError>
    decreases words,
{
    if words == 0 || pos + 2 > data.len() {
        Ok((out, pos))
    } else {
        let count = data[pos];
        let tag = data[pos + 1];
        if tag != NEARTAG && tag != FARTAG {
            carmack_tokens(data, pos + 2, out.push(count).push(tag), (words - 1) as nat, far)
        } else if pos + 3 > data.len() {
            Err(MapError::TruncatedInput)
        } else if count == 0 {
            carmack_tokens(
                data,
                pos + 3,
                out.push(data[pos + 2]).push(tag),
                (words - 1) as nat,
                far,
            )
        } else {
            let run = run_words(count, words);
            if tag == NEARTAG {
                let back = 2 * (data[pos + 2] as int);
                if back == 0 || back > out.len() {
                    Err(MapError::CorruptToken)
                } else {
                    carmack_tokens(
                        data,
                        pos + 3,
                        copy_forward(out, out.len() - back, 2 * run),
                        (words - run) as nat,
                        far,
                    )
                }
            } else if pos + 4 > data.len() {
                Err(MapError::TruncatedInput)
            } else {
                let start = far_start(le_u16(data, pos + 2), far);
                if start < 0 || start >= out.len() {
                    Err(MapError::CorruptToken)
                } else {
                    carmack_tokens(
                        data,
                        pos + 4,
                        copy_forward(out, start, 2 * run),
                        (words - run) as nat,
                        far,
                    )
                }
            }
        }
    }
}

/// What follows the token loop: where the output is still short of `len`
/// and an input byte is left at `pos`, that byte is taken as it is.
pub open spec fn with_trailing_byte(out: Seq<u8>, data: Seq<u8>, pos: int, len: nat) -> Seq<u8> {
    if out.len() < len && 0 <= pos < data.len() {
        out.push(data[pos])
    } else {
        out
    }
}

/// The expansion of `data` to `len` bytes: `len / 2` words from the token
/// loop, one raw byte where that leaves the output short, then zeros.
pub open spec fn carmack_expanded(data: Seq<u8>, len: nat, far: FarOffset) -> Result<
    Seq<u8>,
    MapError,
> {
    match carmack_tokens(data, 0, Seq::empty(), len / 2, far) {
        Ok((out, pos)) => Ok(padded(with_trailing_byte(out, data, pos, len), len, 0u8)),
        Err(e) => Err(e),
    }
}

/// Whether no token of `data`, read as two-byte literal words, has a tag
/// byte in its second place.
pub open spec fn literal_only(data: Seq<u8>) -> bool {
    forall|i: int| 0 <= i < data.len() && i % 2 == 1 ==> data[i] != NEARTAG && data[i] != FARTAG
}

proof fn lemma_copy_forward_len(out: Seq<u8>, start: int, n: nat)
    ensures
        copy_forward(out, start, n).len() == out.len() + n,
    decreases n,
{
    if n > 0 {
        lemma_copy_forward_len(out.push(out[start]), start + 1, (n - 1) as nat);
    }
}

fn copy_within(out: &mut Vec<u8>, start: usize, n: usize)
    requires
        start < old(out)@.len(),
        old(out)@.len() + n <= usize::MAX,
    ensures
        final(out)@ == copy_forward(old(out)@, start as int, n as nat),
{
    let mut k: usize = 0;
    while k < n
        invariant
            k <= n,
            out@.len() == old(out)@.len() + k,
            start < old(out)@.len(),
            old(out)@.len() + n <= usize::MAX,
            copy_forward(old(out)@, start as int, n as nat) == copy_forward(
                out@,
                start + k,
                (n - k) as nat,
            ),
        decreases n - k,
    {
        let b = out[start + k];
        out.push(b);
        k += 1;
    }
}

/// Expands a Carmack-compressed stream to exactly `len` bytes, with far
/// offsets that count the first word of the output as word 0.
pub fn carmack_expand(data: &[u8], len: usize) -> (r: Result<Vec<u8>, MapError>)
    ensures
        (match r {
            Ok(v) => carmack_expanded(data@, len as nat, FarOffset::FromZero) == Ok::<
                Seq<u8>,
                MapError,
            >(v@) && v@.len() == len,
            Err(e) => carmack_expanded(data@, len as nat, FarOffset::FromZero) == Err::<
                Seq<u8>,
                MapError,
            >(e),
        }),
{
    carmack_expand_with(data, len, FarOffset::FromZero)
}

/// Expands a Carmack-compressed stream to exactly `len` bytes, with far
/// offsets counted as `far` says.
///
/// A run that would pass `len` is cut there; a stream that ends between
/// tokens leaves the rest to be zeros. A stream that ends inside a
/// back-reference token is `TruncatedInput`; a back-reference that starts
/// outside the written output is `CorruptToken`.
pub fn carmack_expand_with(data: &[u8], len: usize, far: FarOffset) -> (r: Result<
    Vec<u8>,
    MapError,
>)
    ensures
        (match r {
            Ok(v) => carmack_expanded(data@, len as nat, far) == Ok::<Seq<u8>, MapError>(v@)
                && v@.len() == len,
            Err(e) => carmack_expanded(data@, len as nat, far) == Err::<Seq<u8>, MapError>(e),
        }),
{
    let mut expanded: Vec<u8> = Vec::new();
    let mut length: usize = len / 2;
    let mut in_ptr: usize = 0;
    let n: usize = data.len();
    while length != 0 && n - in_ptr >= 2
        invariant
            n == data@.len(),
            in_ptr <= n,
            expanded@.len() + 2 * length == 2 * (len / 2),
            carmack_tokens(data@, 0, Seq::empty(), (len / 2) as nat, far) == carmack_tokens(
                data@,
                in_ptr as int,
                expanded@,
                length as nat,
                far,
            ),
        decreases length,
    {
        let word_count: u8 = data[in_ptr];
        let ch_high: u8 = data[in_ptr + 1];
        if ch_high != NEARTAG && ch_high != FARTAG {
            expanded.push(word_count);
            expanded.push(ch_high);
            in_ptr += 2;
            length -= 1;
        } else if n - in_ptr < 3 {
            return Err(MapError::TruncatedInput);
        } else if word_count == 0 {
            expanded.push(data[in_ptr + 2]);
            expanded.push(ch_high);
            in_ptr += 3;
            length -= 1;
        } else {
            let run: usize = if (word_count as usize) <= length {
                word_count as usize
            } else {
                length
            };
            let start: usize;
            if ch_high == NEARTAG {
                let back: usize = 2 * (data[in_ptr + 2] as usize);
                if back == 0 || back > expanded.len() {
                    return Err(MapError::CorruptToken);
                }
                start = expanded.len() - back;
                in_ptr += 3;
            } else {
                if n - in_ptr < 4 {
                    return Err(MapError::TruncatedInput);
                }
                let word: usize = data[in_ptr + 2] as usize + 256 * (data[in_ptr + 3] as usize);
                let first: usize = match far {
                    FarOffset::FromZero => 0,
                    FarOffset::FromOne => 1,
                };
                if word < first || 2 * (word - first) >= expanded.len() {
                    return Err(MapError::CorruptToken);
                }
                start = 2 * (word - first);
                in_ptr += 4;
            }
            proof {
                lemma_copy_forward_len(expanded@, start as int, (2 * run) as nat);
            }
            copy_within(&mut expanded, start, 2 * run);
            length -= run;
        }
    }
    if expanded.len() < len && in_ptr < n {
        expanded.push(data[in_ptr]);
    }
    pad_to(&mut expanded, len, 0u8);
    Ok(expanded)
}

/// Where the token loop of a literal-only stream stops, from the even
/// position `pos` with `words` words owed.
pub open spec fn literal_stop(total: nat, pos: int, words: nat) -> int {
    if pos + 2 * words <= total {
        pos + 2 * words
    } else {
        total - total % 2
    }
}

proof fn lemma_literal_tokens(data: Seq<u8>, pos: int, words: nat, far: FarOffset)
    requires
        literal_only(data),
        0 <= pos <= data.len(),
        pos % 2 == 0,
    ensures
        carmack_tokens(data, pos, data.subrange(0, pos), words, far) == Ok::<
            (Seq<u8>, int),
            MapError,
        >(
            (
                data.subrange(0, literal_stop(data.len(), pos, words)),
                literal_stop(data.len(), pos, words),
            ),
        ),
    decreases words,
{
    if words == 0 || pos + 2 > data.len() {
    } else {
        assert(data[pos + 1] != NEARTAG && data[pos + 1] != FARTAG);
        assert(data.subrange(0, pos).push(data[pos]).push(data[pos + 1]) =~= data.subrange(
            0,
            pos + 2,
        ));
        lemma_literal_tokens(data, pos + 2, (words - 1) as nat, far);
    }
}

/// A stream without a tag byte in the second place of any literal word
/// expands to itself: cut to `len` bytes, or extended to `len` with zeros.
pub proof fn lemma_carmack_literal_passthrough(data: Seq<u8>, len: nat, far: FarOffset)
    requires
        literal_only(data),
    ensures
        carmack_expanded(data, len, far) == Ok::<Seq<u8>, MapError>(padded(data, len, 0u8)),
{
    lemma_literal_tokens(data, 0, len / 2, far);
    let stop = literal_stop(data.len(), 0, len / 2);
    let out = data.subrange(0, stop);
    assert(data.subrange(0, 0) =~= Seq::<u8>::empty());
    let tail = with_trailing_byte(out, data, stop, len);
    if out.len() < len && stop < data.len() {
        assert(tail =~= data.subrange(0, stop + 1));
    }
    assert(padded(tail, len, 0u8) =~= padded(data, len, 0u8));
}

proof fn lemma_tokens_fit(data: Seq<u8>, pos: int, out: Seq<u8>, words: nat, far: FarOffset)
    ensures
        carmack_tokens(data, pos, out, words, far) matches Ok((o, p)) ==> o.len() <= out.len() + 2
            * words,
    decreases words,
{
    if words == 0 || pos + 2 > data.len() {
    } else {
        let count = data[pos];
        let tag = data[pos + 1];
        let run = run_words(count, words);
        if tag != NEARTAG && tag != FARTAG {
            lemma_tokens_fit(data, pos + 2, out.push(count).push(tag), (words - 1) as nat, far);
        } else if pos + 3 > data.len() {
        } else if count == 0 {
            lemma_tokens_fit(
                data,
                pos + 3,
                out.push(data[pos + 2]).push(tag),
                (words - 1) as nat,
                far,
            );
        } else if tag == NEARTAG {
            let start = out.len() - 2 * (data[pos + 2] as int);
            lemma_copy_forward_len(out, start, 2 * run);
            lemma_tokens_fit(
                data,
                pos + 3,
                copy_forward(out, start, 2 * run),
                (words - run) as nat,
                far,
            );
        } else if pos + 4 <= data.len() {
            let start = far_start(le_u16(data, pos + 2), far);
            lemma_copy_forward_len(out, start, 2 * run);
            lemma_tokens_fit(
                data,
                pos + 4,
                copy_forward(out, start, 2 * run),
                (words - run) as nat,
                far,
            );
        }
    }
}

/// Whatever the stream holds, an expansion that succeeds has exactly the
/// requested length, and nothing that the stream gave was cut to get there:
/// what the token loop and the trailing byte yield is never longer, so the
/// rest is zeros.
pub proof fn lemma_carmack_exact_length(data: Seq<u8>, len: nat, far: FarOffset)
    ensures
        carmack_expanded(data, len, far) matches Ok(v) ==> v.len() == len,
        carmack_tokens(data, 0, Seq::empty(), len / 2, far) matches Ok((out, pos)) ==> ({
            let given = with_trailing_byte(out, data, pos, len);
            &&& given.len() <= len
            &&& carmack_expanded(data, len, far) == Ok::<Seq<u8>, MapError>(
                given + Seq::new((len - given.len()) as nat, |i: int| 0u8),
            )
        }),
{
    lemma_tokens_fit(data, 0, Seq::empty(), len / 2, far);
    if let Ok((out, pos)) = carmack_tokens(data, 0, Seq::empty(), len / 2, far) {
        let given = with_trailing_byte(out, data, pos, len);
        assert(padded(given, len, 0u8) =~= given + Seq::new(
            (len - given.len()) as nat,
            |i: int| 0u8,
        ));
    }
}

} // verus!
