//! Incremental parsing: bytes are read from a source in chunks, buffered, and handed to the
//! streaming parser one paragraph at a time.
use crate::grammar::{
    document, finish_result, lemma_empty_document, lemma_paragraph_bounded,
    lemma_streaming_decisions_are_final, streaming_result, FieldModel,
};
use crate::parser::{parse_finish, parse_streaming, Paragraph, Streaming, SyntaxError};
use crate::text::{
    lemma_encode_utf8_concat, lemma_valid_text_of_encoding_prefix, lemma_valid_utf8_len,
    longest_valid_prefix, valid_utf8_len, valid_utf8_text,
};
use vstd::prelude::*;
use vstd::utf8::{decode_utf8, encode_utf8, valid_utf8};

verus! {

/// A source of bytes for [`BufParse`].
pub trait BufParseInput {
    /// The error type of read operations.
    type Error;

    /// Reads bytes into `buf`, up to its length, and returns the number of bytes read. Where no
    /// more input is available it leaves `buf` as it is and returns 0.
    fn read(&mut self, buf: &mut [u8]) -> (r: Result<usize, Self::Error>)
        ensures
            final(buf)@.len() == old(buf)@.len(),
            r matches Ok(n) ==> n <= old(buf)@.len(),
    ;
}

/// An error returned by [`BufParse::try_next`].
#[derive(Debug, PartialEq, Eq, Clone, Copy)]
pub enum BufParseError {
    /// The input is not valid UTF-8: of the bytes that were waiting to be parsed, only this many
    /// at their start are.
    InvalidUtf8(usize),
    /// The input holds a syntax error.
    InvalidSyntax(SyntaxError),
}

/// What [`BufParse::try_next`] answers, as a value of the model.
pub enum Answer {
    /// A paragraph, with these fields.
    Paragraph(Seq<FieldModel>),
    /// More input is needed: call [`BufParse::buffer`].
    Incomplete,
    /// All input has been parsed.
    Finished,
    /// The pending bytes are valid UTF-8 only up to this many.
    Utf8Error(nat),
    /// The line at this character offset of the pending text cannot be parsed.
    SyntaxError(nat),
}

/// What the adapter answers for these pending bytes, and the bytes that are left pending after.
///
/// The grammar is run on the longest prefix of the pending bytes that is valid UTF-8: the rest
/// may be the start of a character that the next chunk completes. Once the source is exhausted
/// that cannot happen, and bytes that are not valid UTF-8 are an error.
pub open spec fn next_step(pending: Seq<u8>, exhausted: bool) -> (Answer, Seq<u8>) {
    let text = valid_utf8_text(pending);
    match streaming_result(text) {
        Ok(Some((n, fields))) => (
            Answer::Paragraph(fields),
            pending.skip(encode_utf8(text.take(n as int)).len() as int),
        ),
        Ok(None) => if !exhausted {
            (Answer::Incomplete, pending)
        } else if !valid_utf8(pending) {
            (Answer::Utf8Error(valid_utf8_len(pending)), pending)
        } else {
            match finish_result(text) {
                Ok(Some(fields)) => (Answer::Paragraph(fields), seq![]),
                Ok(None) => (Answer::Finished, seq![]),
                Err(at) => (Answer::SyntaxError(at), pending),
            }
        },
        Err(at) => (Answer::SyntaxError(at), pending),
    }
}

/// The answer of the model that a result of [`BufParse::try_next`] stands for.
pub open spec fn answer_of(r: Result<Option<Streaming<Paragraph>>, BufParseError>) -> Answer {
    match r {
        Ok(Some(Streaming::Item(p))) => Answer::Paragraph(p@),
        Ok(Some(Streaming::Incomplete)) => Answer::Incomplete,
        Ok(None) => Answer::Finished,
        Err(BufParseError::InvalidUtf8(k)) => Answer::Utf8Error(k as nat),
        Err(BufParseError::InvalidSyntax(e)) => Answer::SyntaxError(e.offset as nat),
    }
}

/// A streaming control-file parser that reads its input from a [`BufParseInput`] and buffers it.
///
/// Call [`try_next`](BufParse::try_next) until it answers [`Streaming::Incomplete`], then
/// [`buffer`](BufParse::buffer) to read more, and so on until `try_next` answers `None`.
pub struct BufParse<R> {
    chunk_size: usize,
    buffer: Vec<u8>,
    pos: usize,
    read: R,
    exhausted: bool,
}

impl<R: BufParseInput> BufParse<R> {
    /// The bytes read but not yet parsed.
    pub closed spec fn pending(&self) -> Seq<u8> {
        self.buffer@.skip(self.pos as int)
    }

    /// Whether the source has reported that no more input is available.
    pub closed spec fn exhausted(&self) -> bool {
        self.exhausted
    }

    /// The source that the parser reads from.
    pub closed spec fn source(&self) -> R {
        self.read
    }

    /// The number of bytes asked of the source at each read.
    pub closed spec fn chunk_size(&self) -> nat {
        self.chunk_size as nat
    }

    /// The read cursor lies within the buffer.
    pub closed spec fn wf(&self) -> bool {
        self.pos <= self.buffer@.len()
    }

    /// Creates a parser that reads `chunk_size` bytes at a time from `read`.
    pub fn new(read: R, chunk_size: usize) -> (p: Self)
        ensures
            p.wf(),
            p.pending() == Seq::<u8>::empty(),
            !p.exhausted(),
            p.chunk_size() == chunk_size,
            p.source() == read,
    {
        let p = BufParse {
            chunk_size,
            buffer: Vec::with_capacity(chunk_size),
            pos: 0,
            read,
            exhausted: false,
        };
        assert(p.buffer@.skip(0) =~= Seq::<u8>::empty());
        p
    }

    /// Reads the next chunk of input into the buffer, dropping the bytes already parsed.
    ///
    /// The source is asked once for up to `chunk_size` bytes, and what it answered is handed to
    /// [`take_read`](BufParse::take_read): the bytes it read are appended to the pending ones,
    /// reading no byte marks the source as exhausted for good, and an error of the source is
    /// returned as it is, with the pending bytes left as they were.
    pub fn buffer(&mut self) -> (r: Result<(), R::Error>)
        requires
            old(self).wf(),
        ensures
            final(self).wf(),
            final(self).chunk_size() == old(self).chunk_size(),
            match r {
                Ok(()) => {
                    let added = final(self).pending().len() - old(self).pending().len();
                    &&& 0 <= added <= old(self).chunk_size()
                    &&& final(self).pending().take(old(self).pending().len() as int)
                        == old(self).pending()
                    &&& final(self).exhausted() == (old(self).exhausted() || added == 0)
                },
                Err(_) => final(self).pending() == old(self).pending() && final(self).exhausted()
                    == old(self).exhausted(),
            },
    {
        let ghost before = self.buffer@.skip(self.pos as int);
        let tail = self.buffer.split_off(self.pos);
        self.buffer = tail;
        self.pos = 0;
        assert(self.buffer@.skip(0) =~= before);
        let mut chunk: Vec<u8> = vec![0u8; self.chunk_size];
        let read = self.read.read(chunk.as_mut_slice());
        self.take_read(chunk, read)
    }

    /// Takes in what a read of the source answered, where `chunk` is the buffer it read into.
    ///
    /// On `Ok(n)` the first `n` bytes of `chunk` are appended to the pending bytes, and reading
    /// no byte marks the source as exhausted. On an error, that very error is returned and
    /// nothing changes.
    pub fn take_read(&mut self, chunk: Vec<u8>, read: Result<usize, R::Error>) -> (r: Result<
        (),
        R::Error,
    >)
        requires
            old(self).wf(),
            read matches Ok(n) ==> n <= chunk@.len(),
        ensures
            final(self).wf(),
            final(self).chunk_size() == old(self).chunk_size(),
            final(self).source() == old(self).source(),
            match read {
                Ok(n) => r is Ok && final(self).pending() == old(self).pending() + chunk@.take(
                    n as int,
                ) && final(self).exhausted() == (old(self).exhausted() || n == 0),
                Err(e) => r == Err::<(), R::Error>(e) && final(self).pending() == old(
                    self,
                ).pending() && final(self).exhausted() == old(self).exhausted(),
            },
    {
        match read {
            Ok(n) => {
                let ghost before = self.buffer@.skip(self.pos as int);
                let mut added = chunk;
                added.truncate(n);
                self.buffer.append(&mut added);
                assert(self.buffer@.skip(self.pos as int) =~= before + chunk@.take(n as int));
                if n == 0 {
                    self.exhausted = true;
                }
                Ok(())
            },
            Err(e) => Err(e),
        }
    }

    /// Tries to parse the next paragraph from the buffered input.
    ///
    /// * `None`: all input has been parsed; later calls answer `None` again.
    /// * [`Streaming::Incomplete`]: the buffered input does not decide the next paragraph; call
    ///   [`buffer`](BufParse::buffer) to read more.
    /// * [`Streaming::Item`]: a paragraph was parsed; call `try_next` again after it.
    ///
    /// An error leaves the pending bytes as they were, so a later call answers it again.
    #[verifier::rlimit(40)]
    pub fn try_next(&mut self) -> (r: Result<Option<Streaming<Paragraph>>, BufParseError>)
        requires
            old(self).wf(),
        ensures
            final(self).wf(),
            final(self).exhausted() == old(self).exhausted(),
            final(self).chunk_size() == old(self).chunk_size(),
            final(self).source() == old(self).source(),
            answer_of(r) == next_step(old(self).pending(), old(self).exhausted()).0,
            final(self).pending() == next_step(old(self).pending(), old(self).exhausted()).1,
    {
        let ghost pending = self.buffer@.skip(self.pos as int);
        let bytes = &self.buffer.as_slice()[self.pos..self.buffer.len()];
        assert(bytes@ =~= pending);
        proof {
            lemma_valid_utf8_len(pending);
        }
        let (input, invalid) = longest_valid_prefix(bytes);
        assert(input@ == valid_utf8_text(pending));
        match parse_streaming(input) {
            Ok(Streaming::Item((rest, paragraph))) => {
                let ghost n = match streaming_result(input@) {
                    Ok(Some((k, _))) => k as int,
                    _ => 0,
                };
                proof {
                    lemma_paragraph_bounded(input@, false);
                    assert(input@ =~= input@.take(n) + rest@);
                    lemma_encode_utf8_concat(input@.take(n), rest@);
                }
                let parsed = input.len() - rest.len();
                self.pos = self.pos + parsed;
                assert(self.buffer@.skip(self.pos as int) =~= pending.skip(parsed as int));
                Ok(Some(Streaming::Item(paragraph)))
            },
            Ok(Streaming::Incomplete) => {
                if !self.exhausted {
                    Ok(Some(Streaming::Incomplete))
                } else if let Some(n) = invalid {
                    Err(BufParseError::InvalidUtf8(n))
                } else {
                    match parse_finish(input) {
                        Ok(Some(paragraph)) => {
                            self.pos = self.buffer.len();
                            assert(self.buffer@.skip(self.pos as int) =~= seq![]);
                            Ok(Some(Streaming::Item(paragraph)))
                        },
                        Ok(None) => {
                            self.pos = self.buffer.len();
                            assert(self.buffer@.skip(self.pos as int) =~= seq![]);
                            Ok(None)
                        },
                        Err(e) => Err(BufParseError::InvalidSyntax(e)),
                    }
                }
            },
            Err(e) => Err(BufParseError::InvalidSyntax(e)),
        }
    }
}

/// Once all input has been parsed, it stays so: the answer `Finished` leaves nothing pending,
/// and with nothing pending and the source exhausted the answer is `Finished` again, with
/// nothing pending, however often `try_next` is called.
pub proof fn lemma_finished_is_final(pending: Seq<u8>)
    requires
        next_step(pending, true).0 is Finished,
    ensures
        next_step(pending, true).1 == Seq::<u8>::empty(),
        next_step(Seq::<u8>::empty(), true) == (Answer::Finished, Seq::<u8>::empty()),
{
    lemma_empty_document();
    assert(Seq::<u8>::empty().take(0) =~= Seq::<u8>::empty());
    assert(valid_utf8_text(Seq::<u8>::empty()) =~= Seq::<char>::empty());
    assert(next_step(Seq::<u8>::empty(), true).1 =~= Seq::<u8>::empty());
}

/// Bytes that are not valid UTF-8 are not dropped once the source is exhausted: `try_next`
/// then neither answers that all input is parsed nor asks for more, and where it answers with a
/// paragraph, fewer bytes are left pending and they are still not valid UTF-8. So an encoding
/// error is reported after at most as many paragraphs as there are pending bytes, unless a
/// syntax error comes first.
pub proof fn lemma_invalid_bytes_are_reported(pending: Seq<u8>)
    requires
        !valid_utf8(pending),
    ensures
        !(next_step(pending, true).0 is Finished),
        !(next_step(pending, true).0 is Incomplete),
        next_step(pending, true).0 is Paragraph ==> !valid_utf8(next_step(pending, true).1)
            && next_step(pending, true).1.len() < pending.len(),
{
    let text = valid_utf8_text(pending);
    let v = pending.take(valid_utf8_len(pending) as int);
    lemma_valid_utf8_len(pending);
    if let Ok(Some((n, fields))) = streaming_result(text) {
        lemma_paragraph_bounded(text, false);
        vstd::utf8::decode_utf8_encode_utf8(v);
        assert(text =~= text.take(n as int) + text.skip(n as int));
        lemma_encode_utf8_concat(text.take(n as int), text.skip(n as int));
        let head = encode_utf8(text.take(n as int));
        let c = head.len() as int;
        assert(v =~= head + encode_utf8(text.skip(n as int)));
        assert(pending.take(c) =~= head);
        vstd::utf8::encode_utf8_valid_utf8(text.take(n as int));
        vstd::utf8::encode_utf8_decode_utf8(text.take(n as int));
        assert(c > 0) by {
            if c == 0 {
                assert(head =~= Seq::<u8>::empty());
                assert(decode_utf8(head).len() == 0);
            }
        }
        if valid_utf8(pending.skip(c)) {
            vstd::utf8::valid_utf8_concat(head, pending.skip(c));
            assert(head + pending.skip(c) =~= pending);
        }
    }
}

/// The adapter's state agrees with the complete document `text`: of its paragraphs, the first
/// `emitted` have been returned and the rest are those of the text from character `at` on; the
/// pending bytes are the encoding of that rest, read up to some point, and all of it once the
/// source is exhausted.
pub open spec fn agrees(
    text: Seq<char>,
    at: int,
    emitted: nat,
    pending: Seq<u8>,
    exhausted: bool,
) -> bool {
    let rest = encode_utf8(text.skip(at));
    &&& 0 <= at <= text.len()
    &&& pending.len() <= rest.len()
    &&& pending == rest.take(pending.len() as int)
    &&& exhausted ==> pending == rest
    &&& document(text) matches Ok(ps) && emitted <= ps.len() && document(text.skip(at)) == Ok::<
        Seq<Seq<FieldModel>>,
        nat,
    >(ps.skip(emitted as int))
}

/// Before anything is read, the adapter agrees with any document without syntax errors.
pub proof fn lemma_agrees_at_start(text: Seq<char>)
    requires
        document(text) is Ok,
    ensures
        agrees(text, 0, 0, Seq::<u8>::empty(), false),
{
    assert(text.skip(0) =~= text);
    assert(encode_utf8(text).take(0) =~= Seq::<u8>::empty());
    if let Ok(ps) = document(text) {
        assert(ps.skip(0) =~= ps);
    }
}

/// Reading keeps the agreement. By [`BufParse::take_read`], a read appends to the pending bytes
/// exactly the bytes the source wrote (`more`), and marks the source exhausted exactly where it
/// wrote none. Where those are the document's next bytes, and the source reports the end only
/// once all of them have been read, the adapter agrees with the document after the read.
pub proof fn lemma_reading_keeps_agreement(
    text: Seq<char>,
    at: int,
    emitted: nat,
    pending: Seq<u8>,
    more: Seq<u8>,
)
    requires
        agrees(text, at, emitted, pending, false),
        pending.len() + more.len() <= encode_utf8(text.skip(at)).len(),
        more == encode_utf8(text.skip(at)).subrange(
            pending.len() as int,
            (pending.len() + more.len()) as int,
        ),
    ensures
        agrees(text, at, emitted, pending + more, false),
        more.len() == 0 && pending.len() == encode_utf8(text.skip(at)).len() ==> agrees(
            text,
            at,
            emitted,
            pending + more,
            true,
        ),
{
    let rest = encode_utf8(text.skip(at));
    assert(pending + more =~= rest.take((pending.len() + more.len()) as int));
    if pending.len() == rest.len() {
        assert(rest.take(rest.len() as int) =~= rest);
    }
}

proof fn lemma_bytes_after_paragraph(s: Seq<char>, pending: Seq<u8>, j: nat, n: nat)
    requires
        n <= j <= s.len(),
        pending.len() <= encode_utf8(s).len(),
        pending == encode_utf8(s).take(pending.len() as int),
        encode_utf8(s.take(j as int)) == pending.take(valid_utf8_len(pending) as int),
        valid_utf8_len(pending) <= pending.len(),
    ensures
        ({
            let c = encode_utf8(s.take(n as int)).len() as int;
            let rest = encode_utf8(s.skip(n as int));
            &&& c <= pending.len()
            &&& pending.skip(c).len() <= rest.len()
            &&& pending.skip(c) == rest.take(pending.skip(c).len() as int)
            &&& (pending == encode_utf8(s) ==> pending.skip(c) == rest)
        }),
{
    let head = s.take(n as int);
    let c = encode_utf8(head).len() as int;
    assert(s =~= head + s.skip(n as int));
    lemma_encode_utf8_concat(head, s.skip(n as int));
    assert(s.take(j as int) =~= head + s.take(j as int).skip(n as int));
    lemma_encode_utf8_concat(head, s.take(j as int).skip(n as int));
    let u = encode_utf8(s);
    assert(c <= encode_utf8(s.take(j as int)).len());
    assert(encode_utf8(s.take(j as int)).len() == valid_utf8_len(pending));
    assert(c <= pending.len());
    assert(u.skip(c) =~= encode_utf8(s.skip(n as int)));
    assert forall|i: int| 0 <= i < pending.len() - c implies pending.skip(c)[i] == u.skip(c)[i] by {
        assert(pending[c + i] == u.take(pending.len() as int)[c + i]);
    }
    assert(pending.skip(c) =~= u.skip(c).take(pending.skip(c).len() as int));
}

#[verifier::rlimit(30)]
proof fn lemma_document_after_paragraph(
    text: Seq<char>,
    at: int,
    emitted: nat,
    n: nat,
    fields: Seq<FieldModel>,
)
    requires
        0 <= at <= text.len(),
        streaming_result(text.skip(at)) == Ok::<Option<(nat, Seq<FieldModel>)>, nat>(
            Some((n, fields)),
        ),
        document(text) matches Ok(ps) && emitted <= ps.len() && document(text.skip(at)) == Ok::<
            Seq<Seq<FieldModel>>,
            nat,
        >(ps.skip(emitted as int)),
    ensures
        at + n <= text.len(),
        text.skip(at + n) == text.skip(at).skip(n as int),
        document(text) matches Ok(ps) && emitted < ps.len() && fields == ps[emitted as int]
            && document(text.skip(at + n)) == Ok::<Seq<Seq<FieldModel>>, nat>(
            ps.skip(emitted + 1int),
        ),
{
    let s = text.skip(at);
    let ps = document(text)->Ok_0;
    lemma_paragraph_bounded(s, false);
    assert(text.skip(at + n) =~= s.skip(n as int));
    assert(document(s) == match document(s.skip(n as int)) {
        Ok(more) => Ok(seq![fields] + more),
        Err(e) => Err(e + n),
    });
    let rest = document(s.skip(n as int))->Ok_0;
    assert(ps.skip(emitted as int) == seq![fields] + rest);
    assert(ps.skip(emitted as int)[0] == fields);
    assert(ps.skip(emitted + 1int) =~= (seq![fields] + rest).drop_first());
    assert((seq![fields] + rest).drop_first() =~= rest);
}

/// The size of the chunks does not change what is parsed. Where the adapter agrees with a
/// complete document, `try_next` answers either the next paragraph of the document, and agrees
/// again with one more paragraph returned; or that more input is needed, only while the source is
/// not exhausted, with nothing changed; or that all input is parsed, only once every paragraph
/// of the document has been returned. It answers no error. With
/// [`lemma_agrees_at_start`] and [`lemma_reading_keeps_agreement`]: for a source that hands out
/// the bytes of a document in order, in chunks of any sizes, cut even inside a character or
/// right at the end of a paragraph, and then reports its end, the adapter returns the
/// paragraphs that [`crate::parser::parse_str`] returns for the whole document, each once and
/// in order, then answers that all input is parsed. The whole loop is stated as one property in
/// [`lemma_session_returns_the_document`].
pub proof fn lemma_chunking_does_not_matter(
    text: Seq<char>,
    at: int,
    emitted: nat,
    pending: Seq<u8>,
    exhausted: bool,
)
    requires
        agrees(text, at, emitted, pending, exhausted),
    ensures
        match next_step(pending, exhausted).0 {
            Answer::Paragraph(fields) => document(text) matches Ok(ps) && emitted < ps.len()
                && fields == ps[emitted as int] && exists|at2: int|
                #[trigger] agrees(text, at2, emitted + 1, next_step(pending, exhausted).1, exhausted)
                    && encode_utf8(text.skip(at2)) == encode_utf8(text.skip(at)).skip(
                    pending.len() - next_step(pending, exhausted).1.len(),
                ),
            Answer::Incomplete => !exhausted && next_step(pending, exhausted).1 == pending,
            Answer::Finished => document(text) matches Ok(ps) && emitted == ps.len(),
            _ => false,
        },
{
    let s = text.skip(at);
    let j = lemma_valid_text_of_encoding_prefix(s, pending);
    let read = s.take(j as int);
    lemma_valid_utf8_len(pending);
    assert(s =~= read + s.skip(j as int));
    lemma_streaming_decisions_are_final(read, s.skip(j as int));
    lemma_paragraph_bounded(read, false);
    match streaming_result(read) {
        Ok(Some((n, fields))) => {
            assert(read.take(n as int) =~= s.take(n as int));
            lemma_bytes_after_paragraph(s, pending, j, n);
            lemma_document_after_paragraph(text, at, emitted, n, fields);
            let c = encode_utf8(s.take(n as int)).len() as int;
            lemma_encode_utf8_concat(s.take(n as int), s.skip(n as int));
            assert(s =~= s.take(n as int) + s.skip(n as int));
            assert(encode_utf8(s).skip(c) =~= encode_utf8(s.skip(n as int)));
            assert(agrees(
                text,
                at + n,
                emitted + 1,
                next_step(pending, exhausted).1,
                exhausted,
            ));
        },
        Ok(None) => {
            if exhausted {
                vstd::utf8::encode_utf8_valid_utf8(s);
                assert(pending.take(pending.len() as int) =~= pending);
                vstd::utf8::encode_utf8_decode_utf8(read);
                vstd::utf8::encode_utf8_decode_utf8(s);
                assert(read == s);
                lemma_finish_step(text, at, emitted, pending);
            }
        },
        Err(_) => {},
    }
}

proof fn lemma_finish_step(text: Seq<char>, at: int, emitted: nat, pending: Seq<u8>)
    requires
        agrees(text, at, emitted, pending, true),
        streaming_result(text.skip(at)) == Ok::<Option<(nat, Seq<FieldModel>)>, nat>(None),
    ensures
        match next_step(pending, true).0 {
            Answer::Paragraph(fields) => document(text) matches Ok(ps) && emitted < ps.len()
                && fields == ps[emitted as int] && agrees(
                text,
                text.len() as int,
                emitted + 1,
                next_step(pending, true).1,
                true,
            ) && encode_utf8(text.skip(text.len() as int)) == encode_utf8(text.skip(at)).skip(
                pending.len() - next_step(pending, true).1.len(),
            ),
            Answer::Finished => document(text) matches Ok(ps) && emitted == ps.len(),
            _ => false,
        },
{
    let s = text.skip(at);
    let ps = document(text)->Ok_0;
    vstd::utf8::encode_utf8_valid_utf8(s);
    lemma_valid_utf8_len(pending);
    assert(pending.take(pending.len() as int) =~= pending);
    vstd::utf8::encode_utf8_decode_utf8(s);
    assert(valid_utf8_text(pending) == s);
    lemma_empty_document();
    let end = text.len() as int;
    assert(text.skip(end) =~= Seq::<char>::empty());
    assert(encode_utf8(Seq::<char>::empty()) =~= Seq::<u8>::empty());
    assert(next_step(pending, true) == match finish_result(s) {
        Ok(Some(fields)) => (Answer::Paragraph(fields), Seq::<u8>::empty()),
        Ok(None) => (Answer::Finished, Seq::<u8>::empty()),
        Err(at) => (Answer::SyntaxError(at), pending),
    });
    if let Ok(Some(fields)) = finish_result(s) {
        assert(ps.skip(emitted as int) == seq![fields]);
        assert(ps.skip(emitted as int)[0] == fields);
        assert(ps.skip(emitted as int).len() == 1);
        assert(emitted + 1 == ps.len());
        assert(ps.skip(emitted + 1int) =~= Seq::<Seq<FieldModel>>::empty());
        assert(encode_utf8(text.skip(end)).take(0) =~= Seq::<u8>::empty());
        assert(encode_utf8(s).skip(pending.len() as int) =~= Seq::<u8>::empty());
    } else {
        assert(ps.skip(emitted as int).len() == 0);
    }
}

/// A paragraph answer always consumes pending bytes.
pub proof fn lemma_paragraph_consumes(pending: Seq<u8>, exhausted: bool)
    ensures
        next_step(pending, exhausted).0 is Paragraph ==> next_step(pending, exhausted).1.len()
            < pending.len(),
{
    let text = valid_utf8_text(pending);
    let v = pending.take(valid_utf8_len(pending) as int);
    lemma_valid_utf8_len(pending);
    lemma_empty_document();
    if pending.len() == 0 {
        assert(v =~= Seq::<u8>::empty());
        assert(text =~= Seq::<char>::empty());
    }
    if let Ok(Some((n, fields))) = streaming_result(text) {
        lemma_paragraph_bounded(text, false);
        vstd::utf8::decode_utf8_encode_utf8(v);
        assert(text =~= text.take(n as int) + text.skip(n as int));
        lemma_encode_utf8_concat(text.take(n as int), text.skip(n as int));
        let head = encode_utf8(text.take(n as int));
        vstd::utf8::encode_utf8_decode_utf8(text.take(n as int));
        assert(head.len() > 0) by {
            if head.len() == 0 {
                assert(head =~= Seq::<u8>::empty());
                assert(decode_utf8(head).len() == 0);
            }
        }
    }
}

/// What a caller's loop gets from a parser with these pending bytes and this exhaustion, over a
/// source that still holds `chunks`: each read brings the next chunk, and once they are all read
/// the source reports its end. The loop calls `try_next`, reads on `Incomplete`, and stops at
/// `Finished` (`Ok` of the paragraphs returned, in order) or at the first error (`Err`).
pub open spec fn session(pending: Seq<u8>, exhausted: bool, chunks: Seq<Seq<u8>>) -> Result<
    Seq<Seq<FieldModel>>,
    Answer,
>
    decreases pending.len() + chunks.flatten().len(), chunks.len(), if exhausted {
        0nat
    } else {
        1nat
    },
{
    proof {
        lemma_paragraph_consumes(pending, exhausted);
    }
    let (answer, rest) = next_step(pending, exhausted);
    match answer {
        Answer::Paragraph(fields) => match session(rest, exhausted, chunks) {
            Ok(more) => Ok(seq![fields] + more),
            Err(e) => Err(e),
        },
        Answer::Incomplete => if exhausted {
            Err(Answer::Incomplete)
        } else if chunks.len() == 0 {
            session(pending, true, chunks)
        } else {
            session(pending + chunks[0], false, chunks.drop_first())
        },
        Answer::Finished => Ok(seq![]),
        other => Err(other),
    }
}

proof fn lemma_session_agrees(
    text: Seq<char>,
    at: int,
    emitted: nat,
    pending: Seq<u8>,
    exhausted: bool,
    chunks: Seq<Seq<u8>>,
)
    requires
        agrees(text, at, emitted, pending, exhausted),
        pending + chunks.flatten() == encode_utf8(text.skip(at)),
        exhausted ==> chunks.len() == 0,
    ensures
        document(text) matches Ok(ps) && session(pending, exhausted, chunks) == Ok::<
            Seq<Seq<FieldModel>>,
            Answer,
        >(ps.skip(emitted as int)),
    decreases pending.len() + chunks.flatten().len(), chunks.len(), if exhausted {
        0nat
    } else {
        1nat
    },
{
    let ps = document(text)->Ok_0;
    lemma_chunking_does_not_matter(text, at, emitted, pending, exhausted);
    lemma_paragraph_consumes(pending, exhausted);
    let (answer, rest) = next_step(pending, exhausted);
    match answer {
        Answer::Paragraph(fields) => {
            let at2 = choose|at2: int|
                #[trigger] agrees(text, at2, emitted + 1, rest, exhausted) && encode_utf8(
                    text.skip(at2),
                ) == encode_utf8(text.skip(at)).skip(pending.len() - rest.len());
            let c = pending.len() - rest.len();
            assert(rest =~= pending.skip(c));
            assert(rest + chunks.flatten() =~= (pending + chunks.flatten()).skip(c));
            lemma_session_agrees(text, at2, emitted + 1, rest, exhausted, chunks);
            assert(ps.skip(emitted as int) =~= seq![fields] + ps.skip(emitted + 1int));
        },
        Answer::Incomplete => {
            if chunks.len() == 0 {
                assert(pending + chunks.flatten() =~= pending);
                lemma_session_agrees(text, at, emitted, pending, true, chunks);
            } else {
                let first = chunks[0];
                let more = chunks.drop_first();
                assert(chunks.flatten() == first + more.flatten());
                let whole = encode_utf8(text.skip(at));
                assert(first =~= whole.subrange(
                    pending.len() as int,
                    (pending.len() + first.len()) as int,
                ));
                lemma_reading_keeps_agreement(text, at, emitted, pending, first);
                assert((pending + first) + more.flatten() =~= pending + chunks.flatten());
                lemma_session_agrees(text, at, emitted, pending + first, false, more);
            }
        },
        Answer::Finished => {
            assert(ps.skip(emitted as int) =~= Seq::<Seq<FieldModel>>::empty());
        },
        _ => {},
    }
}

/// The size of the chunks does not change what is parsed, over a whole session. For a
/// document without syntax errors whose encoding is cut into chunks of any sizes, anywhere
/// (inside a character, right at the end of a paragraph), a caller's loop over a source that hands
/// out those chunks in order and then reports its end gets no error and no `Incomplete` it cannot
/// resolve: it gets the paragraphs of the whole document, each once and in order, then `Finished`.
pub proof fn lemma_session_returns_the_document(text: Seq<char>, chunks: Seq<Seq<u8>>)
    requires
        document(text) is Ok,
        chunks.flatten() == encode_utf8(text),
    ensures
        document(text) matches Ok(ps) && session(Seq::<u8>::empty(), false, chunks) == Ok::<
            Seq<Seq<FieldModel>>,
            Answer,
        >(ps),
{
    lemma_agrees_at_start(text);
    assert(text.skip(0) =~= text);
    assert(Seq::<u8>::empty() + chunks.flatten() =~= chunks.flatten());
    lemma_session_agrees(text, 0, 0, Seq::<u8>::empty(), false, chunks);
    let ps = document(text)->Ok_0;
    assert(ps.skip(0) =~= ps);
}

/// A document cut in two anywhere, at the end of a paragraph among others, and read in two
/// chunks, gives the paragraphs of the whole document: none lost, none repeated.
pub proof fn lemma_split_in_two(text: Seq<char>, cut: int)
    requires
        document(text) is Ok,
        0 <= cut <= encode_utf8(text).len(),
    ensures
        document(text) matches Ok(ps) && session(
            Seq::<u8>::empty(),
            false,
            seq![encode_utf8(text).take(cut), encode_utf8(text).skip(cut)],
        ) == Ok::<Seq<Seq<FieldModel>>, Answer>(ps),
{
    let e = encode_utf8(text);
    let chunks = seq![e.take(cut), e.skip(cut)];
    let second = chunks.drop_first();
    assert(second.drop_first() =~= Seq::<Seq<u8>>::empty());
    assert(second.drop_first().flatten() == Seq::<u8>::empty());
    assert(second.first() == e.skip(cut));
    assert(second.flatten() == second.first() + second.drop_first().flatten());
    assert(second.flatten() =~= e.skip(cut));
    assert(chunks.flatten() == chunks.first() + second.flatten());
    assert(chunks.flatten() =~= e);
    lemma_session_returns_the_document(text, chunks);
}

proof fn lemma_session_fails(
    text: Seq<char>,
    at: nat,
    pending: Seq<u8>,
    exhausted: bool,
    chunks: Seq<Seq<u8>>,
)
    requires
        streaming_result(text) == Err::<Option<(nat, Seq<FieldModel>)>, nat>(at),
        pending + chunks.flatten() == encode_utf8(text),
        exhausted ==> chunks.len() == 0,
    ensures
        session(pending, exhausted, chunks) == Err::<Seq<Seq<FieldModel>>, Answer>(
            Answer::SyntaxError(at),
        ),
    decreases pending.len() + chunks.flatten().len(), chunks.len(), if exhausted {
        0nat
    } else {
        1nat
    },
{
    let whole = encode_utf8(text);
    assert(pending =~= whole.take(pending.len() as int));
    let j = lemma_valid_text_of_encoding_prefix(text, pending);
    let read = text.take(j as int);
    assert(text =~= read + text.skip(j as int));
    lemma_streaming_decisions_are_final(read, text.skip(j as int));
    lemma_valid_utf8_len(pending);
    lemma_paragraph_consumes(pending, exhausted);
    if streaming_result(read) is Ok {
        if exhausted {
            assert(pending + chunks.flatten() =~= pending);
            vstd::utf8::encode_utf8_valid_utf8(text);
            assert(pending.take(pending.len() as int) =~= pending);
            vstd::utf8::encode_utf8_decode_utf8(read);
            vstd::utf8::encode_utf8_decode_utf8(text);
            assert(read == text);
        } else if chunks.len() == 0 {
            assert(pending + chunks.flatten() =~= pending);
            lemma_session_fails(text, at, pending, true, chunks);
        } else {
            let first = chunks[0];
            let more = chunks.drop_first();
            assert(chunks.flatten() == first + more.flatten());
            assert((pending + first) + more.flatten() =~= pending + chunks.flatten());
            lemma_session_fails(text, at, pending + first, false, more);
        }
    }
}

/// A first paragraph that can never be valid fails every session: however the encoding of the
/// input is cut into chunks, the caller's loop gets no paragraph and ends with the syntax error
/// at the offset that parsing the whole input gives, never with `Incomplete` or `Finished`. So a
/// field name that starts with `-` (see [`crate::grammar::lemma_hyphen_name_is_an_error`]) is
/// rejected through the adapter at any chunk size.
pub proof fn lemma_invalid_first_paragraph_fails_every_session(
    text: Seq<char>,
    chunks: Seq<Seq<u8>>,
)
    requires
        streaming_result(text) is Err,
        chunks.flatten() == encode_utf8(text),
    ensures
        session(Seq::<u8>::empty(), false, chunks) == Err::<Seq<Seq<FieldModel>>, Answer>(
            Answer::SyntaxError(streaming_result(text)->Err_0),
        ),
{
    assert(Seq::<u8>::empty() + chunks.flatten() =~= chunks.flatten());
    lemma_session_fails(text, streaming_result(text)->Err_0, Seq::<u8>::empty(), false, chunks);
}

} // verus!
