use crate::error::MapError;
use crate::util::le_u16;
use crate::util::pad_to;
use crate::util::padded;
use vstd::prelude::*;

verus! {

/// The number of cells that a run with the given count yields when `room`
/// cells are still owed: a run is cut where it would overshoot.
pub open spec fn run_cells(count: int, room: int) -> nat {
    if count <= room {
        count as nat
    } else {
        room as nat
    }
}

/// The word loop, from byte position `pos` with `out` emitted, towards
/// `target` cells. It ends when the target is reached or when fewer than two
/// bytes are left. A word other than `tag` is one cell; `tag` is followed by
/// a count and a value, and stands for that many cells of that value.
pub open spec fn rlew_words(source: Seq<u8>, pos: int, out: Seq<u16>, target: nat, tag: u16) -> Result<
    Seq<u16>,
    MapError,
>
    decreases source.len() - pos,
{
    if out.len() >= target || pos < 0 || pos + 2 > source.len() {
        Ok(out)
    } else {
        let word = le_u16(source, pos) as u16;
        if word != tag {
            rlew_words(source, pos + 2, out.push(word), target, tag)
        } else if pos + 6 > source.len() {
            Err(MapError::UnexpectedEscape)
        } else {
            let count = le_u16(source, pos + 2);
            let value = le_u16(source, pos + 4) as u16;
            let run = run_cells(count, target - out.len());
            rlew_words(source, pos + 6, out + Seq::new(run, |i: int| value), target, tag)
        }
    }
}

/// The number of cells that the word loop aims at: `len`, or one less where
/// the stream ends in a single byte that forms no word.
pub open spec fn rlew_target(source: Seq<u8>, len: nat) -> nat {
    if source.len() % 2 == 1 && len > 0 {
        (len - 1) as nat
    } else {
        len
    }
}

/// What follows the word loop: where the stream ends in a single byte and a
/// cell is still owed, that byte is one cell.
pub open spec fn with_trailing_cell(cells: Seq<u16>, source: Seq<u8>, len: nat) -> Seq<u16> {
    if source.len() % 2 == 1 && cells.len() < len {
        cells.push(source[source.len() - 1] as u16)
    } else {
        cells
    }
}

/// The expansion of `source` to `len` cells: the word loop, the single
/// trailing byte if there is one, then zeros.
pub open spec fn rlew_expanded(source: Seq<u8>, len: nat, tag: u16) -> Result<Seq<u16>, MapError> {
    match rlew_words(source, 0, Seq::empty(), rlew_target(source, len), tag) {
        Ok(cells) => Ok(padded(with_trailing_cell(cells, source, len), len, 0u16)),
        Err(e) => Err(e),
    }
}

fn word_at(source: &[u8], pos: usize) -> (w: u16)
    requires
        pos + 2 <= source@.len(),
    ensures
        w == le_u16(source@, pos as int),
{
    source[pos] as u16 + 256 * (source[pos + 1] as u16)
}

fn push_run(out: &mut Vec<u16>, value: u16, n: usize)
    requires
        old(out)@.len() + n <= usize::MAX,
    ensures
        final(out)@ == old(out)@ + Seq::new(n as nat, |i: int| value),
{
    let mut k: usize = 0;
    while k < n
        invariant
            k <= n,
            out@ =~= old(out)@ + Seq::new(k as nat, |i: int| value),
        decreases n - k,
    {
        out.push(value);
        k += 1;
    }
}

/// Expands a run-length compressed stream of little-endian words to exactly
/// `len` cells.
///
/// A run that would pass `len` is cut there; a stream that ends between
/// tokens leaves the rest to be zeros. A stream that ends inside a run token
/// is `UnexpectedEscape`.
pub fn rlew_expand(source: &[u8], len: usize, rlew_tag: u16) -> (r: Result<Vec<u16>, MapError>)
    ensures
        (match r {
            Ok(v) => rlew_expanded(source@, len as nat, rlew_tag) == Ok::<Seq<u16>, MapError>(v@)
                && v@.len() == len,
            Err(e) => rlew_expanded(source@, len as nat, rlew_tag) == Err::<Seq<u16>, MapError>(e),
        }),
{
    let mut expanded: Vec<u16> = Vec::new();
    let n: usize = source.len();
    let trail: bool = n % 2 != 0;
    let loop_len: usize = if trail && len > 0 {
        len - 1
    } else {
        len
    };
    let mut pos: usize = 0;
    while expanded.len() < loop_len && n - pos >= 2
        invariant
            n == source@.len(),
            pos <= n,
            expanded@.len() <= loop_len <= len,
            loop_len == rlew_target(source@, len as nat),
            rlew_words(source@, 0, Seq::empty(), loop_len as nat, rlew_tag) == rlew_words(
                source@,
                pos as int,
                expanded@,
                loop_len as nat,
                rlew_tag,
            ),
        decreases n - pos,
    {
        let value: u16 = word_at(source, pos);
        if value != rlew_tag {
            expanded.push(value);
            pos += 2;
        } else if n - pos < 6 {
            return Err(MapError::UnexpectedEscape);
        } else {
            let count: usize = word_at(source, pos + 2) as usize;
            let value: u16 = word_at(source, pos + 4);
            let room: usize = loop_len - expanded.len();
            let run: usize = if count <= room {
                count
            } else {
                room
            };
            push_run(&mut expanded, value, run);
            pos += 6;
        }
    }
    if trail && expanded.len() < len {
        expanded.push(source[n - 1] as u16);
    }
    pad_to(&mut expanded, len, 0u16);
    Ok(expanded)
}

/// The bytes of `cells`, two for each cell, low byte first.
pub open spec fn cell_bytes(cells: Seq<u16>) -> Seq<u8> {
    Seq::new(
        2 * cells.len(),
        |i: int|
            if i % 2 == 0 {
                (cells[i / 2] % 256) as u8
            } else {
                (cells[i / 2] / 256) as u8
            },
    )
}

/// Writes cells out for a consumer that works on bytes: two bytes for each
/// cell, low byte first.
pub fn cells_to_bytes(cells: &[u16]) -> (bytes: Vec<u8>)
    ensures
        bytes@ == cell_bytes(cells@),
{
    let mut bytes: Vec<u8> = Vec::new();
    let n: usize = cells.len();
    let mut k: usize = 0;
    while k < n
        invariant
            n == cells@.len(),
            k <= n,
            bytes@.len() == 2 * k,
            forall|j: int| 0 <= j < 2 * k ==> bytes@[j] == cell_bytes(cells@)[j],
        decreases n - k,
    {
        let c: u16 = cells[k];
        bytes.push((c % 256) as u8);
        bytes.push((c / 256) as u8);
        k += 1;
    }
    assert(bytes@ =~= cell_bytes(cells@));
    bytes
}

/// One token of a run-length compressed stream.
pub enum RlewToken {
    /// One cell, stored as it is.
    Literal { word: u16 },
    /// `count` cells of `value`, stored behind the escape tag.
    Run { count: u16, value: u16 },
}

/// The two bytes of a word, low byte first.
pub open spec fn word_bytes(w: u16) -> Seq<u8> {
    seq![(w % 256) as u8, (w / 256) as u8]
}

/// The bytes that store one token.
pub open spec fn token_bytes(t: RlewToken, tag: u16) -> Seq<u8> {
    match t {
        RlewToken::Literal { word } => word_bytes(word),
        RlewToken::Run { count, value } => word_bytes(tag) + word_bytes(count) + word_bytes(value),
    }
}

/// The cells that one token stands for.
pub open spec fn token_cells(t: RlewToken) -> Seq<u16> {
    match t {
        RlewToken::Literal { word } => seq![word],
        RlewToken::Run { count, value } => Seq::new(count as nat, |i: int| value),
    }
}

/// The stream that stores `tokens` one after the other.
pub open spec fn encoded(tokens: Seq<RlewToken>, tag: u16) -> Seq<u8>
    decreases tokens.len(),
{
    if tokens.len() == 0 {
        Seq::empty()
    } else {
        token_bytes(tokens[0], tag) + encoded(tokens.drop_first(), tag)
    }
}

/// The cells that `tokens` stand for, in order.
pub open spec fn decoded(tokens: Seq<RlewToken>) -> Seq<u16>
    decreases tokens.len(),
{
    if tokens.len() == 0 {
        Seq::empty()
    } else {
        token_cells(tokens[0]) + decoded(tokens.drop_first())
    }
}

/// Whether no literal among `tokens` is the escape tag itself.
pub open spec fn literals_avoid(tokens: Seq<RlewToken>, tag: u16) -> bool {
    forall|i: int|
        0 <= i < tokens.len() ==> (#[trigger] tokens[i] matches RlewToken::Literal { word }
            ==> word != tag)
}

/// The first `n` items of `s`, or all of it where it has fewer.
pub open spec fn first_cells(s: Seq<u16>, n: nat) -> Seq<u16> {
    if s.len() >= n {
        s.subrange(0, n as int)
    } else {
        s
    }
}

proof fn lemma_word_bytes(src: Seq<u8>, pos: int, w: u16)
    requires
        0 <= pos,
        pos + 2 <= src.len(),
        src[pos] == (w % 256) as u8,
        src[pos + 1] == (w / 256) as u8,
    ensures
        le_u16(src, pos) == w,
{
}

proof fn lemma_encoded_even(tokens: Seq<RlewToken>, tag: u16)
    ensures
        encoded(tokens, tag).len() % 2 == 0,
    decreases tokens.len(),
{
    if tokens.len() > 0 {
        lemma_encoded_even(tokens.drop_first(), tag);
    }
}

proof fn lemma_rlew_tokens(
    pre: Seq<u8>,
    rest: Seq<RlewToken>,
    out: Seq<u16>,
    target: nat,
    tag: u16,
)
    requires
        literals_avoid(rest, tag),
        out.len() <= target,
    ensures
        rlew_words(pre + encoded(rest, tag), pre.len() as int, out, target, tag) == Ok::<
            Seq<u16>,
            MapError,
        >(first_cells(out + decoded(rest), target)),
    decreases rest.len(),
{
    let src = pre + encoded(rest, tag);
    let pos = pre.len() as int;
    if out.len() >= target {
        assert(first_cells(out + decoded(rest), target) =~= out);
    } else if rest.len() == 0 {
        assert(src =~= pre);
        assert(out + decoded(rest) =~= out);
    } else {
        let t = rest[0];
        let tail = rest.drop_first();
        let pre2 = pre + token_bytes(t, tag);
        assert(src =~= pre2 + encoded(tail, tag));
        assert(literals_avoid(tail, tag)) by {
            assert forall|i: int| 0 <= i < tail.len() implies (#[trigger] tail[i] matches RlewToken::Literal {
                word,
            } ==> word != tag) by {
                assert(tail[i] == rest[i + 1]);
            }
        }
        match t {
            RlewToken::Literal { word } => {
                lemma_word_bytes(src, pos, word);
                assert(word != tag);
                lemma_rlew_tokens(pre2, tail, out.push(word), target, tag);
                assert(out.push(word) + decoded(tail) =~= out + decoded(rest));
            },
            RlewToken::Run { count, value } => {
                lemma_word_bytes(src, pos, tag);
                lemma_word_bytes(src, pos + 2, count);
                lemma_word_bytes(src, pos + 4, value);
                let run = run_cells(count as int, target - out.len());
                let out2 = out + Seq::new(run, |i: int| value);
                lemma_rlew_tokens(pre2, tail, out2, target, tag);
                assert(first_cells(out2 + decoded(tail), target) =~= first_cells(
                    out + decoded(rest),
                    target,
                ));
            },
        }
    }
}

/// A stream that stores literal words and runs expands to the cells that
/// they stand for, in their places: every run as `count` copies of its
/// value, every literal as itself; cut to `len` cells, or extended to `len`
/// with zeros.
pub proof fn lemma_rlew_expands_tokens(tokens: Seq<RlewToken>, len: nat, tag: u16)
    requires
        literals_avoid(tokens, tag),
    ensures
        rlew_expanded(encoded(tokens, tag), len, tag) == Ok::<Seq<u16>, MapError>(
            padded(decoded(tokens), len, 0u16),
        ),
{
    lemma_encoded_even(tokens, tag);
    lemma_rlew_tokens(Seq::empty(), tokens, Seq::empty(), len, tag);
    assert(Seq::<u8>::empty() + encoded(tokens, tag) =~= encoded(tokens, tag));
    assert(Seq::<u16>::empty() + decoded(tokens) =~= decoded(tokens));
    assert(padded(first_cells(decoded(tokens), len), len, 0u16) =~= padded(
        decoded(tokens),
        len,
        0u16,
    ));
}

proof fn lemma_words_fit(source: Seq<u8>, pos: int, out: Seq<u16>, target: nat, tag: u16)
    requires
        out.len() <= target,
    ensures
        rlew_words(source, pos, out, target, tag) matches Ok(cells) ==> cells.len() <= target,
    decreases source.len() - pos,
{
    if out.len() >= target || pos < 0 || pos + 2 > source.len() {
    } else {
        let word = le_u16(source, pos) as u16;
        if word != tag {
            lemma_words_fit(source, pos + 2, out.push(word), target, tag);
        } else if pos + 6 <= source.len() {
            let value = le_u16(source, pos + 4) as u16;
            let run = run_cells(le_u16(source, pos + 2), target - out.len());
            lemma_words_fit(source, pos + 6, out + Seq::new(run, |i: int| value), target, tag);
        }
    }
}

/// Whatever the stream holds, an expansion that succeeds has exactly the
/// requested length, and nothing that the stream gave was cut to get there:
/// what the word loop and the trailing byte yield is never longer, so the
/// rest is zeros.
pub proof fn lemma_rlew_exact_length(source: Seq<u8>, len: nat, tag: u16)
    ensures
        rlew_expanded(source, len, tag) matches Ok(v) ==> v.len() == len,
        rlew_words(source, 0, Seq::empty(), rlew_target(source, len), tag) matches Ok(cells) ==> ({
            let given = with_trailing_cell(cells, source, len);
            &&& given.len() <= len
            &&& rlew_expanded(source, len, tag) == Ok::<Seq<u16>, MapError>(
                given + Seq::new((len - given.len()) as nat, |i: int| 0u16),
            )
        }),
{
    lemma_words_fit(source, 0, Seq::empty(), rlew_target(source, len), tag);
    if let Ok(cells) = rlew_words(source, 0, Seq::empty(), rlew_target(source, len), tag) {
        let given = with_trailing_cell(cells, source, len);
        assert(padded(given, len, 0u16) =~= given + Seq::new(
            (len - given.len()) as nat,
            |i: int| 0u16,
        ));
    }
}

/// The tokens that store `cells` one by one, without a run.
pub open spec fn literals(cells: Seq<u16>) -> Seq<RlewToken> {
    Seq::new(cells.len(), |i: int| RlewToken::Literal { word: cells[i] })
}

proof fn lemma_decoded_literals(cells: Seq<u16>)
    ensures
        decoded(literals(cells)) == cells,
    decreases cells.len(),
{
    if cells.len() == 0 {
        assert(decoded(literals(cells)) =~= cells);
    } else {
        lemma_decoded_literals(cells.drop_first());
        assert(literals(cells).drop_first() =~= literals(cells.drop_first()));
        assert(decoded(literals(cells)) =~= cells);
    }
}

proof fn lemma_encoded_literals(cells: Seq<u16>, tag: u16)
    ensures
        encoded(literals(cells), tag) == cell_bytes(cells),
    decreases cells.len(),
{
    if cells.len() == 0 {
        assert(encoded(literals(cells), tag) =~= cell_bytes(cells));
    } else {
        lemma_encoded_literals(cells.drop_first(), tag);
        assert(literals(cells).drop_first() =~= literals(cells.drop_first()));
        assert(encoded(literals(cells), tag) =~= cell_bytes(cells));
    }
}

/// Cells of which none is the escape tag, written out as bytes, expand to
/// themselves at their own length.
pub proof fn lemma_rlew_plain_words_come_back(cells: Seq<u16>, tag: u16)
    requires
        !cells.contains(tag),
    ensures
        rlew_expanded(cell_bytes(cells), cells.len(), tag) == Ok::<Seq<u16>, MapError>(cells),
{
    lemma_encoded_literals(cells, tag);
    assert(literals_avoid(literals(cells), tag)) by {
        assert forall|i: int| 0 <= i < literals(cells).len() implies (#[trigger] literals(
            cells,
        )[i] matches RlewToken::Literal { word } ==> word != tag) by {
            assert(cells.contains(cells[i]));
        }
    }
    lemma_rlew_expands_tokens(literals(cells), cells.len(), tag);
    lemma_decoded_literals(cells);
    assert(padded(cells, cells.len(), 0u16) =~= cells);
}

} // verus!
