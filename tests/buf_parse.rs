use oma_debcontrol::text::longest_valid_prefix;
use oma_debcontrol::{parse_str, BufParse, BufParseError, BufParseInput, Paragraph, Streaming};

struct Bytes<'a> {
    bytes: &'a [u8],
    pos: usize,
}

impl<'a> Bytes<'a> {
    fn new(bytes: &'a [u8]) -> Self {
        Bytes { bytes, pos: 0 }
    }
}

impl<'a> BufParseInput for Bytes<'a> {
    type Error = ();

    fn read(&mut self, buf: &mut [u8]) -> Result<usize, Self::Error> {
        let to_read = std::cmp::min(self.bytes.len() - self.pos, buf.len());
        buf[..to_read].copy_from_slice(&self.bytes[self.pos..self.pos + to_read]);
        self.pos += to_read;
        Ok(to_read)
    }
}

/// A source that hands out the given chunks one per read, however large the buffer is.
struct Chunks {
    chunks: Vec<Vec<u8>>,
    next: usize,
}

impl BufParseInput for Chunks {
    type Error = ();

    fn read(&mut self, buf: &mut [u8]) -> Result<usize, Self::Error> {
        if self.next == self.chunks.len() {
            return Ok(0);
        }
        let chunk = &self.chunks[self.next];
        assert!(chunk.len() <= buf.len());
        buf[..chunk.len()].copy_from_slice(chunk);
        self.next += 1;
        Ok(chunk.len())
    }
}

/// A source whose first read fails.
struct Failing {
    failed: bool,
}

impl BufParseInput for Failing {
    type Error = &'static str;

    fn read(&mut self, buf: &mut [u8]) -> Result<usize, Self::Error> {
        if !self.failed {
            self.failed = true;
            return Err("broken pipe");
        }
        buf[0] = b'a';
        Ok(1)
    }
}

fn drain<R: BufParseInput>(mut parser: BufParse<R>) -> Vec<Paragraph> {
    let mut paragraphs = vec![];
    while let Some(result) = parser.try_next().unwrap() {
        match result {
            Streaming::Item(paragraph) => paragraphs.push(paragraph),
            Streaming::Incomplete => {
                if parser.buffer().is_err() {
                    panic!("read failed");
                }
            }
        }
    }
    paragraphs
}

fn parse_input(input: &[u8], chunk_size: usize) -> Vec<(String, String)> {
    drain(BufParse::new(Bytes::new(input), chunk_size))
        .into_iter()
        .flat_map(|p| p.fields.into_iter().map(|f| (f.name, f.value)))
        .collect()
}

fn pairs(items: &[(&str, &str)]) -> Vec<(String, String)> {
    items
        .iter()
        .map(|(n, v)| (n.to_string(), v.to_string()))
        .collect()
}

#[test]
fn should_parse_input_in_a_single_chunk() {
    let result = parse_input("field: value\nanother-field: value".as_bytes(), 1000);
    assert_eq!(
        result,
        pairs(&[("field", "value"), ("another-field", "value")])
    );
}

#[test]
fn should_handle_partial_utf8_on_chunk_border() {
    let result = parse_input("12345:äöüöäüääöüäöäüöüöä".as_bytes(), 7);
    assert_eq!(result, pairs(&[("12345", "äöüöäüääöüäöäüöüöä")]));
}

#[test]
fn should_need_to_buffer_at_least_twice_for_nonempty_input() {
    let mut parse = BufParse::new(Bytes::new(b"a: b"), 100);
    parse.buffer().unwrap();
    assert!(matches!(parse.try_next(), Ok(Some(Streaming::Incomplete))));
    parse.buffer().unwrap();
    assert!(matches!(parse.try_next(), Ok(Some(Streaming::Item(_)))));
    assert!(matches!(parse.try_next(), Ok(None)));
}

#[test]
fn should_keep_returning_none_when_input_is_exhausted() {
    let mut parse = BufParse::new(Bytes::new(b""), 10);
    parse.buffer().unwrap();
    assert!(matches!(parse.try_next(), Ok(None)));
    assert!(matches!(parse.try_next(), Ok(None)));
    assert!(matches!(parse.try_next(), Ok(None)));
}

#[test]
fn should_fail_on_invalid_utf8_inside_chunk() {
    let mut parse = BufParse::new(Bytes::new(b"abc: a\xe2\x82\x28bcd efgh"), 100);
    parse.buffer().unwrap();
    assert!(matches!(parse.try_next(), Ok(Some(Streaming::Incomplete))));
    parse.buffer().unwrap();
    assert!(matches!(parse.try_next(), Err(BufParseError::InvalidUtf8(_))));
    assert!(matches!(parse.try_next(), Err(BufParseError::InvalidUtf8(_))));
}

#[test]
fn should_fail_on_invalid_utf8_on_chunk_border() {
    let mut parse = BufParse::new(Bytes::new(b"abc: ab\xe2\x82\x28bcd efgh"), 7);
    parse.buffer().unwrap();
    assert!(matches!(parse.try_next(), Ok(Some(Streaming::Incomplete))));
    parse.buffer().unwrap();
    assert!(matches!(parse.try_next(), Ok(Some(Streaming::Incomplete))));
    parse.buffer().unwrap();
    assert!(matches!(parse.try_next(), Ok(Some(Streaming::Incomplete))));
    parse.buffer().unwrap();
    assert!(matches!(parse.try_next(), Err(BufParseError::InvalidUtf8(_))));
}

#[test]
fn should_fail_on_trailing_invalid_utf8() {
    let mut parse = BufParse::new(Bytes::new(b"abc: a\xe2\x82\x28"), 100);
    parse.buffer().unwrap();
    assert!(matches!(parse.try_next(), Ok(Some(Streaming::Incomplete))));
    parse.buffer().unwrap();
    assert!(matches!(parse.try_next(), Err(BufParseError::InvalidUtf8(_))));
}

fn parse_utf8_input(chunk_size: usize) {
    let input = "field: äöüß\nfield: value\n cont\n\nfield: ßäöü\n";
    let fields = parse_input(input.as_bytes(), chunk_size);
    assert_eq!(
        fields,
        pairs(&[
            ("field", "äöüß"),
            ("field", "value\ncont"),
            ("field", "ßäöü"),
        ])
    );
}

#[test]
fn should_parse_file_with_chunk_size_1() {
    parse_utf8_input(1);
}

#[test]
fn should_parse_file_with_chunk_size_2() {
    parse_utf8_input(2);
}

#[test]
fn should_parse_file_with_chunk_size_10() {
    parse_utf8_input(10);
}

#[test]
fn should_parse_file_with_chunk_size_1000() {
    parse_utf8_input(1000);
}

#[test]
fn split_multibyte_characters_decode_at_small_chunk_sizes() {
    for size in 1..=3 {
        let result = parse_input("field: äöüß\n\n".as_bytes(), size);
        assert_eq!(result, pairs(&[("field", "äöüß")]));
    }
}

const DOCUMENT: &str = "Source: ostree\nSection: admin\nBuild-Depends: a,\n b (>= 1.0),\n# old\n c\n\nPackage: gir1.2-ostree-1.0\nArchitecture: any\nDescription: introspection data\n Long text.\n .\n More text.\n\n\n# trailing comment\nPackage: ostree\nDepends: ${misc:Depends}\n";

#[test]
fn every_chunk_size_gives_the_paragraphs_of_the_whole_text() {
    let whole = parse_str(DOCUMENT).unwrap();
    assert_eq!(whole.len(), 3);
    for size in 1..=DOCUMENT.len() + 1 {
        let chunked = drain(BufParse::new(Bytes::new(DOCUMENT.as_bytes()), size));
        assert_eq!(chunked, whole, "chunk size {}", size);
    }
}

#[test]
fn splitting_at_a_paragraph_end_loses_and_repeats_nothing() {
    let text = "a: 1\n\nb: 2\n\nc: 3\n";
    let whole = parse_str(text).unwrap();
    for cut in 1..text.len() {
        let source = Chunks {
            chunks: vec![text.as_bytes()[..cut].to_vec(), text.as_bytes()[cut..].to_vec()],
            next: 0,
        };
        let chunked = drain(BufParse::new(source, text.len()));
        assert_eq!(chunked, whole, "cut at {}", cut);
    }
}

#[test]
fn truncated_character_at_end_of_input_is_an_encoding_error() {
    let mut parse = BufParse::new(Bytes::new(b"a: b\n\nc: \xc3"), 100);
    parse.buffer().unwrap();
    assert!(matches!(parse.try_next(), Ok(Some(Streaming::Item(_)))));
    assert!(matches!(parse.try_next(), Ok(Some(Streaming::Incomplete))));
    parse.buffer().unwrap();
    assert_eq!(parse.try_next(), Err(BufParseError::InvalidUtf8(3)));
    assert_eq!(parse.try_next(), Err(BufParseError::InvalidUtf8(3)));
}

#[test]
fn syntax_error_is_reported_and_repeated() {
    let mut parse = BufParse::new(Bytes::new(b"a: b\n c\n-d: e\n\n"), 100);
    parse.buffer().unwrap();
    let err = parse.try_next();
    assert!(matches!(err, Err(BufParseError::InvalidSyntax(e)) if e.offset == 8));
    assert_eq!(parse.try_next(), err);
}

#[test]
fn syntax_error_in_the_last_paragraph() {
    let mut parse = BufParse::new(Bytes::new(b"a: b\n\nc"), 100);
    parse.buffer().unwrap();
    assert!(matches!(parse.try_next(), Ok(Some(Streaming::Item(_)))));
    assert!(matches!(parse.try_next(), Ok(Some(Streaming::Incomplete))));
    parse.buffer().unwrap();
    assert!(matches!(parse.try_next(), Err(BufParseError::InvalidSyntax(e)) if e.offset == 0));
}

#[test]
fn read_error_is_passed_on_and_keeps_the_buffer() {
    let mut parse = BufParse::new(Failing { failed: false }, 8);
    assert_eq!(parse.buffer(), Err("broken pipe"));
    assert!(matches!(parse.try_next(), Ok(Some(Streaming::Incomplete))));
    assert_eq!(parse.buffer(), Ok(()));
    assert!(matches!(parse.try_next(), Ok(Some(Streaming::Incomplete))));
}

#[test]
fn take_read_appends_the_bytes_read() {
    let mut parse = BufParse::new(Bytes::new(b""), 8);
    assert_eq!(parse.take_read(b"a: b\n\nc\xff".to_vec(), Ok(6)), Ok(()));
    assert!(matches!(parse.try_next(), Ok(Some(Streaming::Item(p))) if p.fields[0].value == "b"));
    assert!(matches!(parse.try_next(), Ok(Some(Streaming::Incomplete))));
    assert_eq!(parse.take_read(b"c: d".to_vec(), Ok(4)), Ok(()));
    assert!(matches!(parse.try_next(), Ok(Some(Streaming::Incomplete))));
    assert_eq!(parse.take_read(vec![0; 8], Ok(0)), Ok(()));
    assert!(matches!(parse.try_next(), Ok(Some(Streaming::Item(p))) if p.fields[0].value == "d"));
    assert!(matches!(parse.try_next(), Ok(None)));
}

#[test]
fn take_read_returns_the_error_it_is_given() {
    let mut parse = BufParse::new(Failing { failed: true }, 8);
    assert_eq!(parse.take_read(b"a: b\n\n".to_vec(), Err("gone")), Err("gone"));
    assert!(matches!(parse.try_next(), Ok(Some(Streaming::Incomplete))));
}

#[test]
fn finished_stays_finished_across_reads() {
    let mut parse = BufParse::new(Bytes::new(b"a: b"), 3);
    let mut items = 0;
    loop {
        match parse.try_next().unwrap() {
            Some(Streaming::Item(_)) => items += 1,
            Some(Streaming::Incomplete) => parse.buffer().unwrap(),
            None => break,
        }
    }
    assert_eq!(items, 1);
    for _ in 0..3 {
        parse.buffer().unwrap();
        assert!(matches!(parse.try_next(), Ok(None)));
    }
}

#[test]
fn longest_valid_prefix_stops_before_a_cut_character() {
    assert_eq!(longest_valid_prefix(b"ab\xc3\xa4"), ("abä", None));
    assert_eq!(longest_valid_prefix(b"ab\xc3"), ("ab", Some(2)));
    assert_eq!(longest_valid_prefix(b"\xe2\x82\x28x"), ("", Some(0)));
}

#[test]
fn hyphen_name_fails_at_every_chunk_size() {
    let input = b"-field: value\n\n";
    for size in 1..=input.len() + 1 {
        let mut parse = BufParse::new(Bytes::new(input), size);
        let result = loop {
            match parse.try_next() {
                Ok(Some(Streaming::Incomplete)) => parse.buffer().unwrap(),
                other => break other,
            }
        };
        assert!(
            matches!(result, Err(BufParseError::InvalidSyntax(e)) if e.offset == 0),
            "chunk size {}",
            size
        );
    }
}
