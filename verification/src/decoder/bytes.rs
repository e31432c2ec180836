//! Decoding of a whole stream held in memory as bytes.

use vstd::prelude::*;
use vstd::arithmetic::div_mod::lemma_fundamental_div_mod_converse;
use crate::decoder::{
    decode_slice, decode_slice_into, frame_channel, frame_interleaved, frame_lms, frame_rows,
    frame_words, lemma_decode_channel_len, lemma_decode_channel_step, lemma_decode_slice_len,
    row_len, rows_interleaved, rows_samples,
};
use crate::io::{read_be_word, words_of_bytes};
use crate::layout::{
    header_channels, header_frame_samples, header_rate, unpack_file_header, unpack_frame_header,
    unpack_lms, word_magic, word_samples,
};
use crate::lms::QoaLmsState;
use crate::tables::MAGIC;

verus! {

/// Why a stream of bytes could not be decoded.
#[derive(Clone, Debug, PartialEq, Eq)]
pub enum Error {
    /// The stream does not open with the magic number; these four bytes
    /// stand in its place.
    UnknownMagic([u8; 4]),
    /// A frame gives another sample rate or channel count than the first
    /// frame did.
    DescriptorChange(u32, usize),
    /// A source or a sink of samples failed. Decoding from bytes into a
    /// vector never gives this error; it is there for callers that pass
    /// such a failure on.
    IO(crate::pcm_io::Error),
    /// The stream ends inside the file header or inside a frame.
    Eos,
}

impl From<crate::pcm_io::Error> for Error {
    fn from(value: crate::pcm_io::Error) -> (e: Error) {
        Error::IO(value)
    }
}

impl vstd::std_specs::convert::FromSpecImpl<crate::pcm_io::Error> for Error {
    open spec fn obeys_from_spec() -> bool {
        true
    }

    open spec fn from_spec(value: crate::pcm_io::Error) -> Error {
        Error::IO(value)
    }
}

/// A decoder of whole streams.
#[derive(Clone, Debug)]
pub struct Decoder {
    lms: Vec<QoaLmsState>,
    rows: Vec<[i16; 20]>,
}

impl Default for Decoder {
    fn default() -> (d: Self)
        ensures
            d.states() == Seq::<QoaLmsState>::empty(),
            d.held() == Seq::<[i16; 20]>::empty(),
    {
        Decoder::new()
    }
}

/// The samples of a stream and the number of words that hold them.
pub ghost struct StreamDecoded {
    pub samples: Seq<i16>,
    pub end: int,
}

/// The four bytes of a number as an array, highest first.
pub open spec fn magic_bytes(x: u32) -> [u8; 4] {
    [(x / 0x100_0000) as u8, (x / 0x1_0000 % 256) as u8, (x / 0x100 % 256) as u8, (x % 256) as u8]
}

/// Whether frames are still to come: the declared samples are not all
/// there, or the length is unknown and the stream has not ended.
pub open spec fn more_frames(
    words: Seq<u64>,
    tail: bool,
    at: int,
    remaining: int,
    streaming: bool,
) -> bool {
    remaining > 0 || (streaming && (at < words.len() || tail))
}

/// What the frames from word `at` on decode to: `remaining` is what is left
/// of the declared sample count, `first` the sample rate and channel count of
/// the first frame, and `tail` says that bytes follow the last whole word.
pub open spec fn decode_from(
    words: Seq<u64>,
    tail: bool,
    at: int,
    remaining: int,
    streaming: bool,
    first: Option<(u32, u8)>,
) -> Result<StreamDecoded, Error>
    decreases words.len() - at,
{
    if !more_frames(words, tail, at, remaining, streaming) {
        Ok(StreamDecoded { samples: Seq::empty(), end: at })
    } else if at < 0 || at >= words.len() {
        Err(Error::Eos)
    } else {
        let rate = header_rate(words[at]);
        let channels = header_channels(words[at]);
        let samples = header_frame_samples(words[at]) as int;
        if first is Some && first != Some((rate, channels)) {
            Err(Error::DescriptorChange(rate, channels as usize))
        } else if at + frame_words(words[at]) > words.len() {
            Err(Error::Eos)
        } else {
            let left = if remaining > samples { remaining - samples } else { 0 };
            match decode_from(
                words,
                tail,
                at + frame_words(words[at]),
                left,
                streaming,
                Some((rate, channels)),
            ) {
                Ok(rest) => Ok(
                    StreamDecoded {
                        samples: frame_interleaved(words, at) + rest.samples,
                        end: rest.end,
                    },
                ),
                Err(e) => Err(e),
            }
        }
    }
}

/// What a stream of bytes decodes to: the file header gives the number of
/// samples per channel, or says with 0 that frames follow up to the end of
/// the stream.
pub open spec fn decode_stream(bytes: Seq<u8>) -> Result<StreamDecoded, Error> {
    let words = words_of_bytes(bytes);
    if words.len() == 0 {
        Err(Error::Eos)
    } else if word_magic(words[0]) != MAGIC {
        Err(Error::UnknownMagic(magic_bytes(word_magic(words[0]))))
    } else {
        decode_from(
            words,
            bytes.len() % 8 != 0,
            1,
            word_samples(words[0]) as int,
            word_samples(words[0]) == 0,
            None,
        )
    }
}

/// Whether a whole frame of the sample rate and channel count of the first
/// one stands at word `at` and is still to be decoded.
pub open spec fn frame_ahead(
    words: Seq<u64>,
    tail: bool,
    at: int,
    remaining: int,
    streaming: bool,
    first: Option<(u32, u8)>,
) -> bool {
    &&& more_frames(words, tail, at, remaining, streaming)
    &&& 0 <= at < words.len()
    &&& first is Some ==> first == Some((header_rate(words[at]), header_channels(words[at])))
    &&& at + frame_words(words[at]) <= words.len()
}

/// The samples of the frames from word `at` on, up to the end of the stream
/// or to the first frame that is cut short or differs in sample rate or
/// channel count.
pub open spec fn decoded_ahead(
    words: Seq<u64>,
    tail: bool,
    at: int,
    remaining: int,
    streaming: bool,
    first: Option<(u32, u8)>,
) -> Seq<i16>
    decreases words.len() - at,
{
    if frame_ahead(words, tail, at, remaining, streaming, first) {
        let samples = header_frame_samples(words[at]) as int;
        frame_interleaved(words, at) + decoded_ahead(
            words,
            tail,
            at + frame_words(words[at]),
            if remaining > samples { remaining - samples } else { 0 },
            streaming,
            Some((header_rate(words[at]), header_channels(words[at]))),
        )
    } else {
        Seq::empty()
    }
}

/// The samples that a stream of bytes yields before it ends or fails: none
/// without a file header, else those of the frames up to the first that is
/// cut short or differs in sample rate or channel count.
pub open spec fn stream_samples(bytes: Seq<u8>) -> Seq<i16> {
    let words = words_of_bytes(bytes);
    if words.len() == 0 || word_magic(words[0]) != MAGIC {
        Seq::empty()
    } else {
        decoded_ahead(
            words,
            bytes.len() % 8 != 0,
            1,
            word_samples(words[0]) as int,
            word_samples(words[0]) == 0,
            None,
        )
    }
}

/// Reads word `index` of the stream.
fn word(source: &[u8], index: usize) -> (w: u64)
    requires
        index < words_of_bytes(source@).len(),
    ensures
        w == words_of_bytes(source@)[index as int],
{
    let len = source.len();
    assert(words_of_bytes(source@).len() == len / 8);
    read_be_word(source, index * 8)
}

/// Counts the whole words of the stream.
fn word_count(source: &[u8]) -> (n: usize)
    ensures
        n == words_of_bytes(source@).len(),
        n == source@.len() / 8,
{
    source.len() / 8
}

/// The samples of row `row` of the frame at `at`, interleaved.
pub open spec fn row_interleaved(words: Seq<u64>, at: int, row: nat) -> Seq<i16> {
    let channels = header_channels(words[at]) as int;
    let samples = header_frame_samples(words[at]) as int;
    let len = row_len(samples, row as int);
    Seq::new(
        (len * channels) as nat,
        |k: int|
            decode_slice(
                words[at + 1 + 2 * channels + row * channels + k % channels],
                frame_channel(words, at, k % channels, row).lms,
                len as nat,
            ).samples[k / channels],
    )
}

/// Place `k` of the first `row + 1` rows of a frame holds what the first
/// `row` rows hold there, or what row `row` holds after them.
proof fn lemma_rows_interleaved_place(words: Seq<u64>, at: int, row: nat, k: int)
    requires
        row < frame_rows(header_frame_samples(words[at]) as int),
        header_channels(words[at]) > 0,
        0 <= k < rows_interleaved(words, at, row + 1).len(),
    ensures
        ({
            let channels = header_channels(words[at]) as int;
            let before = rows_interleaved(words, at, row);
            let block = row_interleaved(words, at, row);
            &&& before.len() == 20 * row * channels
            &&& rows_interleaved(words, at, row + 1).len() == before.len() + block.len()
            &&& k < before.len() ==> rows_interleaved(words, at, row + 1)[k] == before[k]
            &&& k >= before.len() ==> rows_interleaved(words, at, row + 1)[k] == block[k
                - before.len()]
        }),
{
    let channels = header_channels(words[at]) as int;
    let samples = header_frame_samples(words[at]) as int;
    let base = at + 1 + 2 * channels;
    let len = row_len(samples, row as int);
    let done: int = 20 * (row as int);
    let before = rows_interleaved(words, at, row);
    let block = row_interleaved(words, at, row);
    let after = rows_interleaved(words, at, row + 1);
    assert(rows_samples(samples, row as int) == done);
    assert(rows_samples(samples, (row + 1) as int) == done + len);
    let dc = done * channels;
    let lc = len * channels;
    assert((done + len) * channels == dc + lc && 0 <= dc && 0 <= lc) by (nonlinear_arith)
        requires
            dc == done * channels,
            lc == len * channels,
            0 <= done,
            0 <= len,
            0 <= channels,
    ;
    assert(before.len() == dc);
    assert(block.len() == lc);
    assert(after.len() == dc + lc);
    lemma_interleaved_place(k, channels, done);
    lemma_interleaved_place(k, channels, done + len);
    let c = k % channels;
    let j = k / channels;
    let ch_before = frame_channel(words, at, c, row);
    let ch_after = frame_channel(words, at, c, row + 1);
    lemma_decode_channel_len(words, base, channels, c, frame_lms(words, at, c), samples, row);
    lemma_decode_channel_step(words, base, channels, c, frame_lms(words, at, c), samples, row);
    assert(ch_before.samples.len() == done);
    let d = decode_slice(words[base + row * channels + c], ch_before.lms, len as nat);
    lemma_decode_slice_len(words[base + row * channels + c], ch_before.lms, len as nat);
    assert(ch_after.samples == ch_before.samples + d.samples);
    assert(after[k] == ch_after.samples[j]);
    if k < dc {
        assert(j < done);
        assert(before[k] == ch_before.samples[j]);
    } else {
        let kk = k - dc;
        let i = j - done;
        assert(j * channels == dc + i * channels) by (nonlinear_arith)
            requires
                j == done + i,
                dc == done * channels,
        ;
        assert(kk == i * channels + c);
        lemma_interleaved_index(i, channels, c);
        assert(kk % channels == c);
        assert(kk / channels == i);
        assert(block[kk] == d.samples[i]);
        assert(ch_after.samples[j] == d.samples[i]);
    }
}

/// The samples of the first `row + 1` rows of a frame are those of the first
/// `row` rows and then those of row `row`.
pub proof fn lemma_rows_interleaved_step(words: Seq<u64>, at: int, row: nat)
    requires
        row < frame_rows(header_frame_samples(words[at]) as int),
    ensures
        rows_interleaved(words, at, row + 1) == rows_interleaved(words, at, row) + row_interleaved(
            words,
            at,
            row,
        ),
{
    let before = rows_interleaved(words, at, row);
    let block = row_interleaved(words, at, row);
    let after = rows_interleaved(words, at, row + 1);
    if header_channels(words[at]) == 0 {
        assert(after =~= before + block);
    } else {
        assert(after.len() == before.len() + block.len()) by {
            let channels = header_channels(words[at]) as int;
            let samples = header_frame_samples(words[at]) as int;
            let done = rows_samples(samples, row as int);
            let len = row_len(samples, row as int);
            assert(rows_samples(samples, (row + 1) as int) == done + len);
            assert((done + len) * channels == done * channels + len * channels && 0 <= done
                * channels && 0 <= len * channels) by (nonlinear_arith)
                requires
                    0 <= done,
                    0 <= len,
                    0 <= channels,
            ;
        }
        assert forall|k: int| 0 <= k < after.len() implies after[k] == (before + block)[k] by {
            lemma_rows_interleaved_place(words, at, row, k);
        }
        assert(after =~= before + block);
    }
}

/// `j * d + c` has quotient `j` and remainder `c` where `0 <= c < d`.
pub proof fn lemma_interleaved_index(j: int, d: int, c: int)
    requires
        0 <= c < d,
    ensures
        (j * d + c) / d == j,
        (j * d + c) % d == c,
{
    lemma_fundamental_div_mod_converse(j * d + c, d, j, c);
}

/// The place `k` of an interleaved block: its channel `k % d` and its sample
/// `k / d`, which lies below `m` just where `k` lies below `m * d`.
pub proof fn lemma_interleaved_place(k: int, d: int, m: int)
    requires
        0 <= k,
        0 < d,
        0 <= m,
    ensures
        0 <= k % d < d,
        0 <= k / d,
        k == (k / d) * d + k % d,
        k < m * d <==> k / d < m,
{
    vstd::arithmetic::div_mod::lemma_fundamental_div_mod(k, d);
    vstd::arithmetic::div_mod::lemma_div_pos_is_pos(k, d);
    assert((k / d) * d == d * (k / d)) by (nonlinear_arith);
    if k / d >= m {
        assert((k / d) * d >= m * d) by (nonlinear_arith)
            requires
                k / d >= m,
                d > 0,
        ;
    } else {
        assert((k / d) * d + d <= m * d) by (nonlinear_arith)
            requires
                k / d + 1 <= m,
                d > 0,
        ;
    }
}

/// Entry `c` of the row buffer and of the states holds what slice `c` of
/// the row at `row_at` decodes to from the state that channel `c` was in.
pub open spec fn row_decoded(
    rows: Seq<[i16; 20]>,
    lms: Seq<QoaLmsState>,
    words: Seq<u64>,
    row_at: int,
    lms_before: Seq<QoaLmsState>,
    len: nat,
    c: int,
) -> bool {
    let d = decode_slice(words[row_at + c], lms_before[c], len);
    &&& lms[c] == d.lms
    &&& forall|i: int| 0 <= i < len ==> rows[c][i] == #[trigger] d.samples[i]
}

/// No row of a frame holds no sample.
proof fn lemma_no_rows(words: Seq<u64>, at: int)
    ensures
        rows_interleaved(words, at, 0) == Seq::<i16>::empty(),
{
    let channels = header_channels(words[at]) as int;
    let samples = header_frame_samples(words[at]) as int;
    assert(rows_samples(samples, 0) == 0);
    assert(rows_samples(samples, 0) * channels == 0) by (nonlinear_arith)
        requires
            rows_samples(samples, 0) == 0,
    ;
    assert(rows_interleaved(words, at, 0).len() == 0);
    assert(rows_interleaved(words, at, 0) =~= Seq::<i16>::empty());
}

/// After a row was decoded into the row buffer, the buffer read
/// interleaved is that row of the frame, and each channel is in the state
/// that the row leaves it in.
proof fn lemma_row_done(
    words: Seq<u64>,
    at: int,
    row: nat,
    rows: Seq<[i16; 20]>,
    lms: Seq<QoaLmsState>,
    lms_before: Seq<QoaLmsState>,
)
    requires
        0 <= at < words.len(),
        row < frame_rows(header_frame_samples(words[at]) as int),
        forall|c: int|
            0 <= c < header_channels(words[at]) ==> #[trigger] lms_before[c] == frame_channel(
                words,
                at,
                c,
                row,
            ).lms,
        forall|c: int|
            0 <= c < header_channels(words[at]) ==> #[trigger] row_decoded(
                rows,
                lms,
                words,
                at + 1 + 2 * header_channels(words[at]) + row * header_channels(words[at]),
                lms_before,
                row_len(header_frame_samples(words[at]) as int, row as int) as nat,
                c,
            ),
    ensures
        Seq::new(
            (row_len(header_frame_samples(words[at]) as int, row as int) * header_channels(
                words[at],
            )) as nat,
            |k: int| rows[k % (header_channels(words[at]) as int)][k / (header_channels(words[at]) as int)],
        ) == row_interleaved(words, at, row),
        forall|c: int|
            0 <= c < header_channels(words[at]) ==> #[trigger] lms[c] == frame_channel(
                words,
                at,
                c,
                row + 1,
            ).lms,
{
    let channels = header_channels(words[at]) as int;
    let samples = header_frame_samples(words[at]) as int;
    let len = row_len(samples, row as int);
    let row_at = at + 1 + 2 * channels + row * channels;
    let block = row_interleaved(words, at, row);
    let pushed = Seq::new((len * channels) as nat, |k: int| rows[k % channels][k / channels]);
    assert(pushed.len() == block.len());
    assert forall|k: int| 0 <= k < block.len() implies pushed[k] == block[k] by {
        assert(channels > 0) by (nonlinear_arith)
            requires
                0 <= k < len * channels,
                0 <= channels,
        ;
        lemma_interleaved_place(k, channels, len);
        let c = k % channels;
        let i = k / channels;
        assert(lms_before[c] == frame_channel(words, at, c, row).lms);
        assert(row_decoded(rows, lms, words, row_at, lms_before, len as nat, c));
        let d = decode_slice(words[row_at + c], lms_before[c], len as nat);
        assert(rows[c][i] == d.samples[i]);
    }
    assert(pushed =~= block);
    assert forall|c: int| 0 <= c < channels implies #[trigger] lms[c] == frame_channel(
        words,
        at,
        c,
        row + 1,
    ).lms by {
        assert(lms_before[c] == frame_channel(words, at, c, row).lms);
        assert(row_decoded(rows, lms, words, row_at, lms_before, len as nat, c));
        lemma_decode_channel_step(
            words,
            at + 1 + 2 * channels,
            channels,
            c,
            frame_lms(words, at, c),
            samples,
            row,
        );
    }
}

impl Decoder {
    /// The states of the channels of the frame that was decoded last.
    pub closed spec fn states(&self) -> Seq<QoaLmsState> {
        self.lms@
    }

    /// The rows of samples that wait to be written out.
    pub closed spec fn held(&self) -> Seq<[i16; 20]> {
        self.rows@
    }

    /// A decoder that has decoded nothing: it holds the state of no channel
    /// and no samples.
    pub fn new() -> (d: Self)
        ensures
            d.states() == Seq::<QoaLmsState>::empty(),
            d.held() == Seq::<[i16; 20]>::empty(),
    {
        Decoder { lms: Vec::new(), rows: Vec::new() }
    }

    /// Loads the predictor state of each channel of the frame at `at`.
    fn load_lms(&mut self, source: &[u8], at: usize, channels: usize)
        requires
            at + 1 + 2 * channels <= words_of_bytes(source@).len(),
        ensures
            final(self).lms.len() == channels,
            final(self).rows == old(self).rows,
            forall|c: int|
                0 <= c < channels ==> final(self).lms[c] == frame_lms(
                    words_of_bytes(source@),
                    at as int,
                    c,
                ),
    {
        let total = word_count(source);
        self.lms.clear();
        let mut c: usize = 0;
        while c < channels
            invariant
                c <= channels,
                total == words_of_bytes(source@).len(),
                at + 1 + 2 * channels <= words_of_bytes(source@).len(),
                self.lms.len() == c,
                self.rows == old(self).rows,
                forall|k: int|
                    0 <= k < c ==> self.lms[k] == frame_lms(words_of_bytes(source@), at as int, k),
            decreases channels - c,
        {
            let history = word(source, at + 1 + 2 * c);
            let weights = word(source, at + 2 + 2 * c);
            self.lms.push(unpack_lms(history, weights));
            c += 1;
        }
    }

    /// Decodes one row of slices: slice `c` of the row, `len` samples of it,
    /// goes to entry `c` of the row buffer and advances channel `c`.
    fn decode_row(&mut self, source: &[u8], row_at: usize, channels: usize, len: usize)
        requires
            row_at + channels <= words_of_bytes(source@).len(),
            old(self).lms.len() == channels,
            len <= 20,
        ensures
            final(self).lms.len() == channels,
            final(self).rows.len() == channels,
            forall|c: int|
                0 <= c < channels ==> #[trigger] row_decoded(
                    final(self).rows@,
                    final(self).lms@,
                    words_of_bytes(source@),
                    row_at as int,
                    old(self).lms@,
                    len as nat,
                    c,
                ),
    {
        let total = word_count(source);
        self.rows.clear();
        let mut c: usize = 0;
        while c < channels
            invariant
                c <= channels,
                total == words_of_bytes(source@).len(),
                row_at + channels <= words_of_bytes(source@).len(),
                self.lms.len() == channels,
                self.rows.len() == c,
                len <= 20,
                forall|k: int| c <= k < channels ==> self.lms[k] == old(self).lms[k],
                forall|k: int|
                    0 <= k < c ==> #[trigger] row_decoded(
                        self.rows@,
                        self.lms@,
                        words_of_bytes(source@),
                        row_at as int,
                        old(self).lms@,
                        len as nat,
                        k,
                    ),
            decreases channels - c,
        {
            let slice = word(source, row_at + c);
            let mut state = self.lms[c];
            let mut block: [i16; 20] = [0, 0, 0, 0, 0, 0, 0, 0, 0, 0, 0, 0, 0, 0, 0, 0, 0, 0, 0, 0];
            decode_slice_into(slice, &mut state, len, &mut block);
            let ghost rows_before = self.rows@;
            let ghost lms_before = self.lms@;
            self.lms[c] = state;
            self.rows.push(block);
            proof {
                lemma_decode_slice_len(slice, old(self).lms[c as int], len as nat);
                assert forall|k: int| 0 <= k < c + 1 implies #[trigger] row_decoded(
                    self.rows@,
                    self.lms@,
                    words_of_bytes(source@),
                    row_at as int,
                    old(self).lms@,
                    len as nat,
                    k,
                ) by {
                    if k < c {
                        assert(row_decoded(
                            rows_before,
                            lms_before,
                            words_of_bytes(source@),
                            row_at as int,
                            old(self).lms@,
                            len as nat,
                            k,
                        ));
                        assert(self.rows@[k] == rows_before[k]);
                        assert(self.lms@[k] == lms_before[k]);
                    }
                }
            }
            c += 1;
        }
    }

    /// Appends the row buffer to `sink`, interleaved.
    fn push_row(&self, sink: &mut Vec<i16>, channels: usize, len: usize)
        requires
            self.rows.len() == channels,
            len <= 20,
        ensures
            final(sink)@ == old(sink)@ + Seq::new(
                (len * channels) as nat,
                |k: int| self.rows[k % (channels as int)][k / (channels as int)],
            ),
    {
        let ghost block = Seq::new(
            (len * channels) as nat,
            |k: int| self.rows[k % (channels as int)][k / (channels as int)],
        );
        let mut i: usize = 0;
        assert(sink@ =~= old(sink)@ + block.take(0));
        while i < len
            invariant
                i <= len <= 20,
                self.rows.len() == channels,
                block == Seq::new(
                    (len * channels) as nat,
                    |k: int| self.rows[k % (channels as int)][k / (channels as int)],
                ),
                0 <= i * channels <= len * channels,
                sink@ == old(sink)@ + block.take(i * channels),
            decreases len - i,
        {
            let mut c: usize = 0;
            assert((i + 1) * channels == i * channels + channels && (i + 1) * channels <= len
                * channels) by (nonlinear_arith)
                requires
                    i < len,
            ;
            while c < channels
                invariant
                    i < len <= 20,
                    c <= channels,
                    self.rows.len() == channels,
                    block == Seq::new(
                        (len * channels) as nat,
                        |k: int| self.rows[k % (channels as int)][k / (channels as int)],
                    ),
                    0 <= i * channels,
                    i * channels + channels <= len * channels,
                    sink@ == old(sink)@ + block.take(i * channels + c),
                decreases channels - c,
            {
                proof {
                    lemma_interleaved_index(i as int, channels as int, c as int);
                }
                sink.push(self.rows[c][i]);
                assert(sink@ =~= old(sink)@ + block.take(i * channels + c + 1));
                c += 1;
            }
            i += 1;
        }
        assert(block.take(len * channels) =~= block);
    }

    /// Decodes the frame whose header is word `at` and appends its samples
    /// to `sink`, interleaved.
    fn decode_frame(&mut self, source: &[u8], at: usize, sink: &mut Vec<i16>)
        requires
            at < words_of_bytes(source@).len(),
            at + frame_words(words_of_bytes(source@)[at as int]) <= words_of_bytes(source@).len(),
        ensures
            final(sink)@ == old(sink)@ + frame_interleaved(words_of_bytes(source@), at as int),
    {
        let ghost words = words_of_bytes(source@);
        let total = word_count(source);
        let (channel_count, _, frame_samples, _) = unpack_frame_header(word(source, at));
        let channels = channel_count as usize;
        let samples = frame_samples as usize;
        let slices = (samples + 19) / 20;
        let rows = if slices < 256 { slices } else { 256 };
        assert(rows * channels <= 256 * 255) by (nonlinear_arith)
            requires
                rows <= 256,
                channels <= 255,
        ;
        self.load_lms(source, at, channels);
        let base = at + 1 + 2 * channels;
        assert(base + rows * channels <= words.len());
        let mut row: usize = 0;
        proof {
            lemma_no_rows(words, at as int);
            assert forall|c: int| 0 <= c < channels implies #[trigger] self.lms[c] == frame_channel(
                words,
                at as int,
                c,
                0,
            ).lms by {
                lemma_decode_channel_step(
                    words,
                    at + 1 + 2 * channels,
                    channels as int,
                    c,
                    frame_lms(words, at as int, c),
                    samples as int,
                    0,
                );
            }
        }
        while row < rows
            invariant
                row <= rows,
                words == words_of_bytes(source@),
                total == words.len(),
                at < words.len(),
                channels == header_channels(words[at as int]),
                samples == header_frame_samples(words[at as int]),
                rows == frame_rows(samples as int),
                base == at + 1 + 2 * channels,
                base + rows * channels <= words.len(),
                self.lms.len() == channels,
                forall|c: int|
                    0 <= c < channels ==> #[trigger] self.lms[c] == frame_channel(
                        words,
                        at as int,
                        c,
                        row as nat,
                    ).lms,
                sink@ == old(sink)@ + rows_interleaved(words, at as int, row as nat),
            decreases rows - row,
        {
            let left = samples - 20 * row;
            let len = if left < 20 { left } else { 20 };
            assert(row * channels + channels <= rows * channels) by (nonlinear_arith)
                requires
                    row < rows,
            ;
            let row_at = base + row * channels;
            let ghost lms_before = self.lms@;
            let ghost sink_before = sink@;
            self.decode_row(source, row_at, channels, len);
            self.push_row(sink, channels, len);
            proof {
                lemma_row_done(words, at as int, row as nat, self.rows@, self.lms@, lms_before);
                lemma_rows_interleaved_step(words, at as int, row as nat);
                assert(sink@ =~= old(sink)@ + rows_interleaved(words, at as int, (row + 1) as nat));
            }
            row += 1;
        }
    }

    /// Decodes the stream `source` and appends its samples to `sink`,
    /// interleaved. Returns the number of bytes that the stream takes up.
    /// Where the stream fails, the sink has the samples of the frames before
    /// the fault and no others.
    pub fn decode(&mut self, source: &[u8], sink: &mut Vec<i16>) -> (r: Result<usize, Error>)
        ensures
            final(sink)@ == old(sink)@ + stream_samples(source@),
            match decode_stream(source@) {
                Ok(stream) => {
                    &&& r == Ok::<usize, Error>((8 * stream.end) as usize)
                    &&& 8 * stream.end <= source.len()
                    &&& stream.samples == stream_samples(source@)
                },
                Err(e) => r == Err::<usize, Error>(e),
            },
    {
        let ghost words = words_of_bytes(source@);
        let ghost tail = source@.len() % 8 != 0;
        let total = word_count(source);
        if total == 0 {
            assert(sink@ =~= old(sink)@ + Seq::<i16>::empty());
            return Err(Error::Eos);
        }
        let declared = match unpack_file_header(word(source, 0)) {
            Ok(declared) => declared,
            Err(bytes) => {
                assert(bytes =~= magic_bytes(word_magic(words[0])));
                assert(sink@ =~= old(sink)@ + Seq::<i16>::empty());
                return Err(Error::UnknownMagic(bytes));
            },
        };
        let streaming = declared == 0;
        let mut remaining: u32 = declared;
        let mut first: Option<(u32, u8)> = None;
        let mut at: usize = 1;
        let ghost mut done: Seq<i16> = Seq::empty();
        assert(sink@ =~= old(sink)@ + done);
        assert(stream_samples(source@) =~= done + decoded_ahead(
            words,
            tail,
            1,
            declared as int,
            streaming,
            first,
        ));
        while remaining > 0 || (streaming && at * 8 < source.len())
            invariant
                1 <= at <= total,
                total == source.len() / 8,
                total == words.len(),
                words == words_of_bytes(source@),
                tail == (source@.len() % 8 != 0),
                sink@ == old(sink)@ + done,
                stream_samples(source@) == done + decoded_ahead(
                    words,
                    tail,
                    at as int,
                    remaining as int,
                    streaming,
                    first,
                ),
                decode_stream(source@) == match decode_from(
                    words,
                    tail,
                    at as int,
                    remaining as int,
                    streaming,
                    first,
                ) {
                    Ok(rest) => Ok::<StreamDecoded, Error>(
                        StreamDecoded { samples: done + rest.samples, end: rest.end },
                    ),
                    Err(e) => Err(e),
                },
            ensures
                !more_frames(words, tail, at as int, remaining as int, streaming),
                stream_samples(source@) == done,
            decreases total - at,
        {
            assert(more_frames(words, tail, at as int, remaining as int, streaming));
            if at >= total {
                assert(done + Seq::<i16>::empty() =~= done);
                return Err(Error::Eos);
            }
            let header = word(source, at);
            let (channels, rate, samples, _) = unpack_frame_header(header);
            if let Some(seen) = first {
                if seen.0 != rate || seen.1 != channels {
                    assert(done + Seq::<i16>::empty() =~= done);
                    return Err(Error::DescriptorChange(rate, channels as usize));
                }
            }
            let slices = (samples as usize + 19) / 20;
            let rows = if slices < 256 { slices } else { 256 };
            assert(rows * channels <= 256 * 255) by (nonlinear_arith)
                requires
                    rows <= 256,
                    channels <= 255,
            ;
            let size = 1 + 2 * (channels as usize) + rows * (channels as usize);
            if size > total - at {
                assert(done + Seq::<i16>::empty() =~= done);
                return Err(Error::Eos);
            }
            self.decode_frame(source, at, sink);
            proof {
                let frame = frame_interleaved(words, at as int);
                assert(sink@ =~= old(sink)@ + (done + frame));
                let left = if remaining > samples { remaining - samples } else { 0 };
                let rest = decode_from(words, tail, at + size, left, streaming, Some((rate, channels)));
                if rest is Ok {
                    assert((done + frame) + rest->Ok_0.samples =~= done + (frame
                        + rest->Ok_0.samples));
                }
                let ahead = decoded_ahead(
                    words,
                    tail,
                    at + size,
                    left as int,
                    streaming,
                    Some((rate, channels)),
                );
                assert((done + frame) + ahead =~= done + (frame + ahead));
                done = done + frame;
            }
            at = at + size;
            remaining = if remaining > samples as u32 { remaining - samples as u32 } else { 0 };
            first = Some((rate, channels));
        }
        proof {
            assert(done + Seq::<i16>::empty() =~= done);
        }
        Ok(at * 8)
    }
}

} // verus!
