//! Streams of big-endian 64-bit words, and a buffer of words in memory.

use vstd::prelude::*;
use std::collections::VecDeque;

verus! {

/// Why a word could not be read.
#[derive(Clone, Debug, PartialEq, Eq)]
pub enum ReadError {
    /// The stream below failed; the text says how.
    Io(String),
    /// The stream ended before a whole word.
    Eof,
    /// Anything else.
    Other(String),
}

/// Why a word could not be written.
#[derive(Clone, Debug, PartialEq, Eq)]
pub enum WriteError {
    /// The stream below failed; the text says how.
    Io(String),
    /// Anything else.
    Other(String),
}

pub type ReadResult = Result<u64, ReadError>;

pub type WriteResult = Result<(), WriteError>;

/// An input stream of 64-bit words.
///
/// The words that are to come are the model that the contracts speak of. An
/// implementation in verified code states its own model; of one that keeps
/// the empty model given here no successful read can be proved. Of an
/// implementation outside verified code nothing is proved: it is trusted to
/// deliver the words of its stream in their order.
pub trait SourceStream {
    /// The words that the stream has yet to deliver.
    open spec fn remaining(&self) -> Seq<u64> {
        Seq::empty()
    }

    /// Whether reading from the stream fails at its end only: it delivers
    /// every word that is left. A stream that does not say so of itself is
    /// not taken to be such.
    open spec fn unfailing(&self) -> bool {
        false
    }

    /// Takes the next word off the stream. `Eof` says that none is left.
    fn read_long(&mut self) -> (r: ReadResult)
        ensures
            old(self).unfailing() ==> {
                &&& final(self).unfailing()
                &&& r is Ok || r == Err::<u64, ReadError>(ReadError::Eof)
                &&& old(self).remaining().len() > 0 ==> r is Ok
            },
            match r {
                Ok(word) => {
                    &&& old(self).remaining().len() > 0
                    &&& word == old(self).remaining()[0]
                    &&& final(self).remaining() == old(self).remaining().skip(1)
                },
                Err(ReadError::Eof) => {
                    &&& old(self).remaining().len() == 0
                    &&& final(self).remaining().len() == 0
                },
                Err(_) => true,
            },
    ;
}

/// What can be turned into an input stream of words.
pub trait IntoSourceStream {
    type Source: SourceStream;

    fn into_source(self) -> Self::Source;
}

impl<S: SourceStream> IntoSourceStream for S {
    type Source = S;

    fn into_source(self) -> (s: S)
        ensures
            s == self,
    {
        self
    }
}

/// An output stream of 64-bit words.
///
/// The words taken so far are the model that the contracts speak of. An
/// implementation in verified code states its own model; of one that keeps
/// the empty model given here no successful write can be proved. Of an
/// implementation outside verified code nothing is proved: it is trusted to
/// keep the words it takes in their order.
pub trait SinkStream {
    /// The words that the stream has taken so far.
    open spec fn written(&self) -> Seq<u64> {
        Seq::empty()
    }

    /// Whether the stream takes every word and can always be flushed. A
    /// stream that does not say so of itself is not taken to be such.
    open spec fn accepting(&self) -> bool {
        false
    }

    /// Appends a word to the stream.
    fn write_long(&mut self, value: u64) -> (r: WriteResult)
        ensures
            r is Ok ==> final(self).written() == old(self).written().push(value),
            old(self).accepting() ==> r is Ok && final(self).accepting(),
    ;

    /// Hands on what the stream may still hold back. A stream that holds
    /// nothing back has nothing to do and succeeds.
    fn flush(&mut self) -> (r: WriteResult)
        ensures
            r is Ok ==> final(self).written() == old(self).written(),
            old(self).accepting() ==> r is Ok && final(self).accepting(),
        default_ensures
            r is Ok,
            final(self).written() == old(self).written(),
    {
        Ok(())
    }
}

/// What can be turned into an output stream of words.
pub trait IntoSinkStream {
    type Sink: SinkStream;

    fn into_sink(self) -> Self::Sink;
}

impl<S: SinkStream> IntoSinkStream for S {
    type Sink = S;

    fn into_sink(self) -> (s: S)
        ensures
            s == self,
    {
        self
    }
}

/// The eight bytes of a word, highest first.
pub open spec fn be_bytes8(word: u64) -> Seq<u8> {
    seq![
        (word / 0x100_0000_0000_0000) as u8,
        (word / 0x1_0000_0000_0000 % 256) as u8,
        (word / 0x100_0000_0000 % 256) as u8,
        (word / 0x1_0000_0000 % 256) as u8,
        (word / 0x100_0000 % 256) as u8,
        (word / 0x1_0000 % 256) as u8,
        (word / 0x100 % 256) as u8,
        (word % 256) as u8,
    ]
}

/// The word that the eight bytes from `at` on hold, highest first.
pub open spec fn word_at(bytes: Seq<u8>, at: int) -> u64 {
    (bytes[at] as int * 0x100_0000_0000_0000 + bytes[at + 1] as int * 0x1_0000_0000_0000 + bytes[at
        + 2] as int * 0x100_0000_0000 + bytes[at + 3] as int * 0x1_0000_0000 + bytes[at + 4] as int
        * 0x100_0000 + bytes[at + 5] as int * 0x1_0000 + bytes[at + 6] as int * 0x100 + bytes[at
        + 7] as int) as u64
}

/// The bytes of a sequence of words.
pub open spec fn bytes_of_words(words: Seq<u64>) -> Seq<u8> {
    Seq::new(words.len() * 8, |i: int| be_bytes8(words[i / 8])[i % 8])
}

/// The words that the whole groups of eight bytes hold.
pub open spec fn words_of_bytes(bytes: Seq<u8>) -> Seq<u64> {
    Seq::new(bytes.len() / 8, |i: int| word_at(bytes, 8 * i))
}

proof fn lemma_be_bytes8(w: u64)
    by (bit_vector)
    ensures
        ((w >> 56) as u8) == w / 0x100_0000_0000_0000,
        ((w >> 48) as u8) == w / 0x1_0000_0000_0000 % 256,
        ((w >> 40) as u8) == w / 0x100_0000_0000 % 256,
        ((w >> 32) as u8) == w / 0x1_0000_0000 % 256,
        ((w >> 24) as u8) == w / 0x100_0000 % 256,
        ((w >> 16) as u8) == w / 0x1_0000 % 256,
        ((w >> 8) as u8) == w / 0x100 % 256,
        (w as u8) == w % 256,
{
}

proof fn lemma_word_of_bytes(a: u8, b: u8, c: u8, d: u8, e: u8, f: u8, g: u8, h: u8)
    by (bit_vector)
    ensures
        ({
            let w = (a as u64) << 56 | (b as u64) << 48 | (c as u64) << 40 | (d as u64) << 32 | (
            e as u64) << 24 | (f as u64) << 16 | (g as u64) << 8 | (h as u64);
            &&& w == a * 0x100_0000_0000_0000 + b * 0x1_0000_0000_0000 + c * 0x100_0000_0000 + d
                * 0x1_0000_0000 + e * 0x100_0000 + f * 0x1_0000 + g * 0x100 + h
            &&& w / 0x100_0000_0000_0000 == a
            &&& w / 0x1_0000_0000_0000 % 256 == b
            &&& w / 0x100_0000_0000 % 256 == c
            &&& w / 0x1_0000_0000 % 256 == d
            &&& w / 0x100_0000 % 256 == e
            &&& w / 0x1_0000 % 256 == f
            &&& w / 0x100 % 256 == g
            &&& w % 256 == h
        }),
{
}

proof fn lemma_bytes_of_word(w: u64)
    by (bit_vector)
    ensures
        w == (w / 0x100_0000_0000_0000) * 0x100_0000_0000_0000 + (w / 0x1_0000_0000_0000 % 256)
            * 0x1_0000_0000_0000 + (w / 0x100_0000_0000 % 256) * 0x100_0000_0000 + (w
            / 0x1_0000_0000 % 256) * 0x1_0000_0000 + (w / 0x100_0000 % 256) * 0x100_0000 + (w
            / 0x1_0000 % 256) * 0x1_0000 + (w / 0x100 % 256) * 0x100 + w % 256,
{
}

/// The word that its own eight bytes hold is the word itself.
pub proof fn lemma_word_round_trip(word: u64)
    ensures
        word_at(be_bytes8(word), 0) == word,
{
    lemma_bytes_of_word(word);
}

/// The words of the bytes of a sequence of words are that sequence.
pub proof fn lemma_words_round_trip(words: Seq<u64>)
    ensures
        words_of_bytes(bytes_of_words(words)) =~= words,
{
    let bytes = bytes_of_words(words);
    assert(bytes.len() / 8 == words.len());
    assert forall|i: int| 0 <= i < words.len() implies word_at(bytes, 8 * i) == words[i] by {
        lemma_bytes_of_word(words[i]);
        assert(bytes[8 * i] == be_bytes8(words[i])[0]);
        assert(bytes[8 * i + 1] == be_bytes8(words[i])[1]);
        assert(bytes[8 * i + 2] == be_bytes8(words[i])[2]);
        assert(bytes[8 * i + 3] == be_bytes8(words[i])[3]);
        assert(bytes[8 * i + 4] == be_bytes8(words[i])[4]);
        assert(bytes[8 * i + 5] == be_bytes8(words[i])[5]);
        assert(bytes[8 * i + 6] == be_bytes8(words[i])[6]);
        assert(bytes[8 * i + 7] == be_bytes8(words[i])[7]);
    }
}

/// Appends the eight bytes of `word` to `bytes`, highest first.
pub fn push_be_bytes(bytes: &mut Vec<u8>, word: u64)
    ensures
        final(bytes)@ == old(bytes)@ + be_bytes8(word),
{
    proof {
        lemma_be_bytes8(word);
    }
    bytes.push(
        #[verifier::truncate]
        ((word >> 56) as u8),
    );
    bytes.push(
        #[verifier::truncate]
        ((word >> 48) as u8),
    );
    bytes.push(
        #[verifier::truncate]
        ((word >> 40) as u8),
    );
    bytes.push(
        #[verifier::truncate]
        ((word >> 32) as u8),
    );
    bytes.push(
        #[verifier::truncate]
        ((word >> 24) as u8),
    );
    bytes.push(
        #[verifier::truncate]
        ((word >> 16) as u8),
    );
    bytes.push(
        #[verifier::truncate]
        ((word >> 8) as u8),
    );
    bytes.push(
        #[verifier::truncate]
        (word as u8),
    );
    assert(bytes@ =~= old(bytes)@ + be_bytes8(word));
}

/// Reads the word that the eight bytes from `at` on hold, highest first.
pub fn read_be_word(bytes: &[u8], at: usize) -> (word: u64)
    requires
        at + 8 <= bytes.len(),
    ensures
        word == word_at(bytes@, at as int),
{
    let a = bytes[at];
    let b = bytes[at + 1];
    let c = bytes[at + 2];
    let d = bytes[at + 3];
    let e = bytes[at + 4];
    let f = bytes[at + 5];
    let g = bytes[at + 6];
    let h = bytes[at + 7];
    proof {
        lemma_word_of_bytes(a, b, c, d, e, f, g, h);
    }
    (a as u64) << 56 | (b as u64) << 48 | (c as u64) << 40 | (d as u64) << 32 | (e as u64) << 24 | (
    f as u64) << 16 | (g as u64) << 8 | (h as u64)
}

/// A queue of words in memory: what is written to it can be read from it, in
/// the same order.
#[derive(Clone, Debug, PartialEq, Eq)]
pub struct Buffer(pub VecDeque<u64>);

impl Default for Buffer {
    fn default() -> (b: Self)
        ensures
            b@ == Seq::<u64>::empty(),
    {
        Buffer(VecDeque::new())
    }
}

impl View for Buffer {
    type V = Seq<u64>;

    open spec fn view(&self) -> Seq<u64> {
        self.0@
    }
}

impl Buffer {
    /// An empty buffer.
    pub fn new() -> (b: Self)
        ensures
            b@ == Seq::<u64>::empty(),
    {
        Buffer(VecDeque::new())
    }

    /// The queue of the words.
    pub fn unwrap(self) -> (words: VecDeque<u64>)
        ensures
            words@ == self@,
    {
        self.0
    }

    /// The bytes of the words, each word highest byte first.
    pub fn encode(self) -> (bytes: Vec<u8>)
        ensures
            bytes@ == bytes_of_words(self@),
    {
        let mut bytes: Vec<u8> = Vec::new();
        let mut i: usize = 0;
        while i < self.0.len()
            invariant
                i <= self.0.len(),
                bytes@ == bytes_of_words(self@.take(i as int)),
            decreases self.0.len() - i,
        {
            let word = self.0[i];
            let ghost before = bytes@;
            push_be_bytes(&mut bytes, word);
            assert(bytes@ =~= bytes_of_words(self@.take(i + 1))) by {
                let next = bytes_of_words(self@.take(i + 1));
                assert(bytes@.len() == next.len());
                assert forall|k: int| 0 <= k < next.len() implies bytes@[k] == next[k] by {
                    if k < 8 * i {
                        assert(before[k] == be_bytes8(self@.take(i as int)[k / 8])[k % 8]);
                    } else {
                        assert(k / 8 == i);
                        assert(bytes@[k] == be_bytes8(word)[k - 8 * i]);
                    }
                }
            }
            i += 1;
        }
        assert(self@.take(self.0.len() as int) =~= self@);
        bytes
    }

    /// Takes the whole groups of eight bytes off the front of `buf` and
    /// returns the words they hold; fewer than eight bytes stay behind.
    pub fn decode(buf: &mut Vec<u8>) -> (b: Self)
        ensures
            b@ == words_of_bytes(old(buf)@),
            final(buf)@ == old(buf)@.skip(old(buf)@.len() - old(buf)@.len() % 8),
    {
        let count = buf.len() / 8;
        let rest = buf.split_off(count * 8);
        let mut words: VecDeque<u64> = VecDeque::new();
        let mut i: usize = 0;
        while i < count
            invariant
                i <= count,
                count * 8 == buf.len(),
                buf@ == old(buf)@.take(count * 8),
                count == old(buf)@.len() / 8,
                words@ == words_of_bytes(old(buf)@).take(i as int),
            decreases count - i,
        {
            let word = read_be_word(buf.as_slice(), i * 8);
            words.push_back(word);
            assert(words@ =~= words_of_bytes(old(buf)@).take(i + 1));
            i += 1;
        }
        assert(words@ =~= words_of_bytes(old(buf)@));
        *buf = rest;
        Buffer(words)
    }
}

impl SourceStream for Buffer {
    open spec fn remaining(&self) -> Seq<u64> {
        self@
    }

    open spec fn unfailing(&self) -> bool {
        true
    }

    fn read_long(&mut self) -> (r: ReadResult)
        ensures
            r is Ok <==> old(self)@.len() > 0,
            r is Err ==> r == Err::<u64, ReadError>(ReadError::Eof),
    {
        match self.0.pop_front() {
            Some(word) => Ok(word),
            None => Err(ReadError::Eof),
        }
    }
}

impl SinkStream for Buffer {
    open spec fn written(&self) -> Seq<u64> {
        self@
    }

    open spec fn accepting(&self) -> bool {
        true
    }

    fn write_long(&mut self, value: u64) -> (r: WriteResult)
        ensures
            r is Ok,
    {
        self.0.push_back(value);
        Ok(())
    }
}

impl From<VecDeque<u64>> for Buffer {
    fn from(value: VecDeque<u64>) -> (b: Buffer) {
        Buffer(value)
    }
}

impl vstd::std_specs::convert::FromSpecImpl<VecDeque<u64>> for Buffer {
    open spec fn obeys_from_spec() -> bool {
        true
    }

    open spec fn from_spec(value: VecDeque<u64>) -> Buffer {
        Buffer(value)
    }
}

impl Buffer {
    /// A buffer that holds the words of `value`, in their order.
    pub fn from_words(value: Vec<u64>) -> (b: Self)
        ensures
            b@ == value@,
    {
        let mut words: VecDeque<u64> = VecDeque::new();
        let mut i: usize = 0;
        while i < value.len()
            invariant
                i <= value.len(),
                words@ == value@.take(i as int),
            decreases value.len() - i,
        {
            words.push_back(value[i]);
            assert(words@ =~= value@.take(i + 1));
            i += 1;
        }
        assert(value@.take(value.len() as int) =~= value@);
        Buffer(words)
    }
}

} // verus!
