//! The parser: paragraphs and fields read from a string, exactly as [`crate::grammar`] describes.
use crate::grammar::{
    blank_line, comment_line, continuation_line, continuation_text, definition_line,
    definition_name, definition_text, document, field, field_list, field_rest, finish_result,
    leading_lines, lemma_complete_input_decides, lemma_field_advances, lemma_paragraph_bounded,
    line_ending, line_text, name_run, paragraph, rest_of_line, shift, space_run,
    streaming_result, terminator, text_run, trim_end, value_start, FieldDef, FieldModel,
    FieldScan, ParaScan, Scan, field_value, trim_leading_breaks, trim_trailing_breaks,
};
use crate::text::{chars_of, push_chars};
use vstd::prelude::*;
use vstd::string::StrSliceExecFns;

verus! {

/// A single field of a control file.
///
/// All kinds of fields (simple, folded, multiline) are treated alike: the text after the colon
/// and the text of each continuation line are stripped of white space at both ends and joined
/// with a single line break, and line breaks at the start or end of the result are left out, so
/// that a value never begins or ends with one. The name is an owned copy of the text in the input, so a field
/// does not borrow from the buffer it was read from.
#[derive(Debug, PartialEq, Eq, Hash, Clone)]
pub struct Field {
    pub name: String,
    pub value: String,
}

impl View for Field {
    type V = FieldModel;

    open spec fn view(&self) -> FieldModel {
        (self.name@, self.value@)
    }
}

/// A paragraph of a control file: its fields in the order of the input, duplicates kept.
#[derive(Debug, PartialEq, Eq, Hash, Clone)]
pub struct Paragraph {
    pub fields: Vec<Field>,
}

pub open spec fn fields_view(fields: Seq<Field>) -> Seq<FieldModel> {
    fields.map_values(|f: Field| f@)
}

impl View for Paragraph {
    type V = Seq<FieldModel>;

    open spec fn view(&self) -> Seq<FieldModel> {
        fields_view(self.fields@)
    }
}

impl Paragraph {
    /// A paragraph of the given fields.
    pub fn new(fields: Vec<Field>) -> (p: Paragraph)
        ensures
            p.fields == fields,
    {
        Paragraph { fields }
    }
}

/// A line of the input that can never be part of a valid paragraph, whatever follows it.
#[derive(Debug, PartialEq, Eq, Clone, Copy)]
pub struct SyntaxError {
    /// The offset, in characters from the start of the parsed input, of the line in question.
    pub offset: usize,
}

/// A result of the streaming parser.
#[derive(Debug, PartialEq, Eq, Clone, Copy)]
pub enum Streaming<T> {
    /// An item returned by the parser.
    Item(T),
    /// More input is needed to make a parsing decision.
    Incomplete,
}

enum Step {
    Took(usize),
    More,
    Bad,
}

spec fn scan_of(r: Step) -> Scan {
    match r {
        Step::Took(n) => Scan::Took(n as nat),
        Step::More => Scan::More,
        Step::Bad => Scan::Bad,
    }
}

proof fn lemma_skip_skip(s: Seq<char>, a: int, b: int)
    requires
        0 <= a,
        0 <= b,
        a + b <= s.len(),
    ensures
        s.skip(a).skip(b) == s.skip(a + b),
{
    assert(s.skip(a).skip(b) =~= s.skip(a + b));
}

fn space_run_at(v: &Vec<char>, p: usize) -> (n: usize)
    requires
        p <= v@.len(),
    ensures
        n == space_run(v@.skip(p as int)),
        p + n <= v.len(),
{
    let mut i = p;
    while i < v.len() && (v[i] == ' ' || v[i] == '\t')
        invariant
            p <= i <= v@.len(),
            space_run(v@.skip(p as int)) == (i - p) + space_run(v@.skip(i as int)),
        decreases v@.len() - i,
    {
        proof {
            assert(v@.skip(i as int).drop_first() =~= v@.skip(i + 1int));
        }
        i += 1;
    }
    i - p
}

fn name_run_at(v: &Vec<char>, p: usize) -> (n: usize)
    requires
        p <= v@.len(),
    ensures
        n == name_run(v@.skip(p as int)),
        p + n <= v.len(),
{
    let mut i = p;
    while i < v.len() && v[i] >= '!' && v[i] <= '~' && v[i] != ':'
        invariant
            p <= i <= v@.len(),
            name_run(v@.skip(p as int)) == (i - p) + name_run(v@.skip(i as int)),
        decreases v@.len() - i,
    {
        proof {
            assert(v@.skip(i as int).drop_first() =~= v@.skip(i + 1int));
        }
        i += 1;
    }
    i - p
}

fn text_run_at(v: &Vec<char>, p: usize) -> (n: usize)
    requires
        p <= v@.len(),
    ensures
        n == text_run(v@.skip(p as int)),
        p + n <= v.len(),
{
    let mut i = p;
    while i < v.len() && v[i] != '\n' && v[i] != '\r'
        invariant
            p <= i <= v@.len(),
            text_run(v@.skip(p as int)) == (i - p) + text_run(v@.skip(i as int)),
        decreases v@.len() - i,
    {
        proof {
            assert(v@.skip(i as int).drop_first() =~= v@.skip(i + 1int));
        }
        i += 1;
    }
    i - p
}

/// The end of the text of the line that starts at `p`, trailing white space left out.
fn line_text_end(v: &Vec<char>, p: usize) -> (e: usize)
    requires
        p <= v@.len(),
    ensures
        p <= e <= v.len(),
        v@.subrange(p as int, e as int) == line_text(v@.skip(p as int)),
{
    let to = p + text_run_at(v, p);
    proof {
        assert(v@.skip(p as int).take(to - p) =~= v@.subrange(p as int, to as int));
    }
    let mut e = to;
    while e > p && (v[e - 1] == ' ' || v[e - 1] == '\t')
        invariant
            p <= e <= to <= v@.len(),
            line_text(v@.skip(p as int)) == trim_end(v@.subrange(p as int, e as int)),
        decreases e - p,
    {
        proof {
            assert(v@.subrange(p as int, e as int).drop_last() =~= v@.subrange(
                p as int,
                e - 1,
            ));
        }
        e -= 1;
    }
    e
}

fn line_ending_at(v: &Vec<char>, p: usize, fin: bool) -> (r: Step)
    requires
        p <= v@.len(),
    ensures
        scan_of(r) == line_ending(v@.skip(p as int), fin),
        r matches Step::Took(n) ==> p + n <= v.len(),
{
    if p == v.len() {
        if fin { Step::Bad } else { Step::More }
    } else if v[p] == '\n' {
        Step::Took(1)
    } else if v[p] == '\r' {
        if p + 1 == v.len() {
            if fin { Step::Bad } else { Step::More }
        } else if v[p + 1] == '\n' {
            Step::Took(2)
        } else {
            Step::Bad
        }
    } else {
        Step::Bad
    }
}

fn shift_step(r: Step, k: usize) -> (o: Step)
    requires
        r matches Step::Took(n) ==> n + k <= usize::MAX,
    ensures
        scan_of(o) == shift(scan_of(r), k as nat),
        o matches Step::Took(m) ==> r matches Step::Took(n) && m == n + k,
{
    match r {
        Step::Took(n) => Step::Took(n + k),
        Step::More => Step::More,
        Step::Bad => Step::Bad,
    }
}

fn rest_of_line_at(v: &Vec<char>, p: usize, fin: bool) -> (r: Step)
    requires
        p <= v@.len(),
    ensures
        scan_of(r) == rest_of_line(v@.skip(p as int), fin),
        r matches Step::Took(n) ==> p + n <= v.len(),
{
    let j = text_run_at(v, p);
    if p + j == v.len() {
        if fin { Step::Took(j) } else { Step::More }
    } else {
        proof {
            lemma_skip_skip(v@, p as int, j as int);
        }
        shift_step(line_ending_at(v, p + j, fin), j)
    }
}

fn blank_line_at(v: &Vec<char>, p: usize, fin: bool) -> (r: Step)
    requires
        p <= v@.len(),
    ensures
        scan_of(r) == blank_line(v@.skip(p as int), fin),
        r matches Step::Took(n) ==> p + n <= v.len(),
{
    let k = space_run_at(v, p);
    if fin && 0 < k && p + k == v.len() {
        return Step::Took(k);
    }
    proof {
        lemma_skip_skip(v@, p as int, k as int);
    }
    shift_step(line_ending_at(v, p + k, fin), k)
}

fn comment_line_at(v: &Vec<char>, p: usize, fin: bool) -> (r: Step)
    requires
        p <= v@.len(),
    ensures
        scan_of(r) == comment_line(v@.skip(p as int), fin),
        r matches Step::Took(n) ==> p + n <= v.len(),
{
    if p == v.len() {
        if fin { Step::Bad } else { Step::More }
    } else if v[p] != '#' {
        Step::Bad
    } else {
        proof {
            lemma_skip_skip(v@, p as int, 1);
        }
        shift_step(rest_of_line_at(v, p + 1, fin), 1)
    }
}

fn continuation_line_at(v: &Vec<char>, p: usize, fin: bool) -> (r: Step)
    requires
        p <= v@.len(),
    ensures
        scan_of(r) == continuation_line(v@.skip(p as int), fin),
        r matches Step::Took(n) ==> p + n <= v.len(),
{
    if p == v.len() {
        if fin { Step::Bad } else { Step::More }
    } else if v[p] != ' ' && v[p] != '\t' {
        Step::Bad
    } else {
        let k = space_run_at(v, p);
        proof {
            lemma_skip_skip(v@, p as int, k as int);
        }
        shift_step(rest_of_line_at(v, p + k, fin), k)
    }
}

/// Where the value of the definition line at `p` starts; `k` is the length of its name.
fn value_start_at(v: &Vec<char>, p: usize, k: usize) -> (m: usize)
    requires
        p + k < v.len(),
        k == name_run(v@.skip(p as int)),
    ensures
        m == value_start(v@.skip(p as int)),
        p + m <= v.len(),
{
    proof {
        lemma_skip_skip(v@, p as int, k + 1);
    }
    k + 1 + space_run_at(v, p + k + 1)
}

fn definition_line_at(v: &Vec<char>, p: usize, fin: bool) -> (r: Step)
    requires
        p <= v@.len(),
    ensures
        scan_of(r) == definition_line(v@.skip(p as int), fin),
        r matches Step::Took(n) ==> p + n <= v.len(),
{
    let k = name_run_at(v, p);
    if k == 0 {
        if p == v.len() && !fin { Step::More } else { Step::Bad }
    } else if p + k == v.len() {
        if fin { Step::Bad } else { Step::More }
    } else if v[p] == '#' || v[p] == '-' || v[p + k] != ':' {
        Step::Bad
    } else {
        let m = value_start_at(v, p, k);
        proof {
            lemma_skip_skip(v@, p as int, m as int);
        }
        shift_step(rest_of_line_at(v, p + m, fin), m)
    }
}

/// Appends the characters `v[from..to]` to `out`.
fn extend_chars(out: &mut Vec<char>, v: &Vec<char>, from: usize, to: usize)
    requires
        from <= to <= v@.len(),
    ensures
        final(out)@ == old(out)@ + v@.subrange(from as int, to as int),
{
    let mut i = from;
    while i < to
        invariant
            from <= i <= to <= v@.len(),
            out@ == old(out)@ + v@.subrange(from as int, i as int),
        decreases to - i,
    {
        out.push(v[i]);
        proof {
            assert(v@.subrange(from as int, i + 1) =~= v@.subrange(from as int, i as int).push(
                v@[i as int],
            ));
        }
        i += 1;
    }
}

/// Where the value in `joined` starts and ends once the line breaks at its ends are left out.
fn value_bounds(joined: &Vec<char>) -> (r: (usize, usize))
    ensures
        r.0 <= r.1 <= joined@.len(),
        joined@.subrange(r.0 as int, r.1 as int) == field_value(joined@),
{
    let mut a: usize = 0;
    assert(joined@.skip(0) =~= joined@);
    while a < joined.len() && joined[a] == '\n'
        invariant
            a <= joined@.len(),
            trim_leading_breaks(joined@) == trim_leading_breaks(joined@.skip(a as int)),
        decreases joined@.len() - a,
    {
        proof {
            assert(joined@.skip(a as int).drop_first() =~= joined@.skip(a + 1int));
        }
        a += 1;
    }
    assert(joined@.skip(a as int) =~= joined@.subrange(a as int, joined@.len() as int));
    let mut b: usize = joined.len();
    while b > a && joined[b - 1] == '\n'
        invariant
            a <= b <= joined@.len(),
            field_value(joined@) == trim_trailing_breaks(joined@.subrange(a as int, b as int)),
        decreases b - a,
    {
        proof {
            assert(joined@.subrange(a as int, b as int).drop_last() =~= joined@.subrange(
                a as int,
                b - 1,
            ));
        }
        b -= 1;
    }
    (a, b)
}

/// The lines that follow a field definition, their text appended to `value`. The field started
/// at `start`; the lines start at `p`. `Some` of where the field ends, or `None` where the input
/// ends before that can be told.
fn field_rest_at(
    v: &Vec<char>,
    start: usize,
    p: usize,
    fin: bool,
    value: &mut Vec<char>,
) -> (r: Option<usize>)
    requires
        start <= p <= v@.len(),
    ensures
        match field_rest(v@.skip(p as int), fin, old(value)@, (p - start) as nat) {
            FieldScan::Done { used, value: text } => r == Some((start + used) as usize)
                && final(value)@ == text && start + used <= v.len(),
            FieldScan::More => r is None,
        },
{
    let mut i = p;
    loop
        invariant
            start <= p <= i <= v@.len(),
            field_rest(v@.skip(i as int), fin, value@, (i - start) as nat) == field_rest(
                v@.skip(p as int),
                fin,
                old(value)@,
                (p - start) as nat,
            ),
        decreases v@.len() - i,
    {
        let ghost s = v@.skip(i as int);
        match continuation_line_at(v, i, fin) {
            Step::Took(n) => {
                let k = space_run_at(v, i);
                proof {
                    lemma_skip_skip(v@, i as int, k as int);
                    lemma_skip_skip(v@, i as int, n as int);
                }
                let e = line_text_end(v, i + k);
                let ghost before = value@;
                value.push('\n');
                extend_chars(value, v, i + k, e);
                assert(value@ == before + seq!['\n'] + continuation_text(s));
                i = i + n;
            },
            Step::More => {
                return None;
            },
            Step::Bad => match comment_line_at(v, i, fin) {
                Step::Took(n) => {
                    proof {
                        lemma_skip_skip(v@, i as int, n as int);
                    }
                    i = i + n;
                },
                Step::More => {
                    return None;
                },
                Step::Bad => {
                    return Some(i);
                },
            },
        }
    }
}

enum FieldStep {
    Done(usize, Field),
    More,
    Bad,
}

fn field_at(v: &Vec<char>, p: usize, fin: bool) -> (r: FieldStep)
    requires
        p <= v@.len(),
    ensures
        match field(v@.skip(p as int), fin) {
            FieldDef::Done { used, field: f } => r matches FieldStep::Done(q, g) && q == p + used
                && g@ == f && q <= v.len(),
            FieldDef::More => r is More,
            FieldDef::Bad => r is Bad,
        },
{
    let ghost s = v@.skip(p as int);
    match definition_line_at(v, p, fin) {
        Step::Took(n) => {
            let k = name_run_at(v, p);
            let mut name = String::new();
            push_chars(&mut name, v, p, p + k);
            assert(name@ =~= definition_name(s));
            let m = value_start_at(v, p, k);
            proof {
                lemma_skip_skip(v@, p as int, m as int);
                lemma_skip_skip(v@, p as int, n as int);
            }
            let e = line_text_end(v, p + m);
            let mut joined: Vec<char> = Vec::new();
            extend_chars(&mut joined, v, p + m, e);
            assert(joined@ =~= definition_text(s));
            match field_rest_at(v, p, p + n, fin, &mut joined) {
                Some(q) => {
                    let (a, b) = value_bounds(&joined);
                    let mut value = String::new();
                    push_chars(&mut value, &joined, a, b);
                    FieldStep::Done(q, Field { name, value })
                },
                None => FieldStep::More,
            }
        },
        Step::More => FieldStep::More,
        Step::Bad => FieldStep::Bad,
    }
}

enum ParaStep {
    Done(usize, Vec<Field>),
    More,
    Bad(usize),
}

/// The paragraph that starts at `p`, as [`paragraph`] describes it, with positions counted from
/// the start of `v`.
fn paragraph_at(v: &Vec<char>, p: usize, fin: bool) -> (r: ParaStep)
    requires
        p <= v@.len(),
    ensures
        match paragraph(v@.skip(p as int), fin) {
            ParaScan::Done { used, fields } => r matches ParaStep::Done(q, fs) && q == p + used
                && fields_view(fs@) == fields && q <= v.len(),
            ParaScan::More => r is More,
            ParaScan::Bad { at } => r matches ParaStep::Bad(a) && a == p + at && a <= v.len(),
        },
{
    proof {
        reveal(paragraph);
    }
    let mut i = p;
    loop
        invariant
            p <= i <= v@.len(),
            leading_lines(v@.skip(i as int), fin, (i - p) as nat) == leading_lines(
                v@.skip(p as int),
                fin,
                0,
            ),
        ensures
            p <= i <= v@.len(),
            leading_lines(v@.skip(p as int), fin, 0) == Some((i - p) as nat),
        decreases v@.len() - i,
    {
        match blank_line_at(v, i, fin) {
            Step::Took(n) => {
                proof {
                    lemma_skip_skip(v@, i as int, n as int);
                }
                i = i + n;
            },
            Step::More => {
                proof {
                    reveal(paragraph);
                }
                return ParaStep::More;
            },
            Step::Bad => match comment_line_at(v, i, fin) {
                Step::Took(n) => {
                    proof {
                        lemma_skip_skip(v@, i as int, n as int);
                    }
                    i = i + n;
                },
                Step::More => {
                    proof {
                    reveal(paragraph);
                }
                return ParaStep::More;
                },
                Step::Bad => {
                    break ;
                },
            },
        }
    }
    proof {
        lemma_skip_skip(v@, p as int, (i - p) as int);
    }
    let mut fields: Vec<Field> = Vec::new();
    assert(fields_view(fields@) =~= seq![]);
    loop
        invariant
            p <= i <= v@.len(),
            field_list(v@.skip(i as int), fin, (i - p) as nat, fields_view(fields@)) == paragraph(
                v@.skip(p as int),
                fin,
            ),
        ensures
            p <= i <= v@.len(),
            field_list(v@.skip(i as int), fin, (i - p) as nat, fields_view(fields@)) == paragraph(
                v@.skip(p as int),
                fin,
            ),
            field(v@.skip(i as int), fin) is Bad,
        decreases v@.len() - i,
    {
        match field_at(v, i, fin) {
            FieldStep::Done(q, f) => {
                proof {
                    lemma_field_advances(v@.skip(i as int), fin);
                    lemma_skip_skip(v@, i as int, q - i);
                }
                let ghost fv = f@;
                let ghost before = fields@;
                fields.push(f);
                assert(fields_view(fields@) =~= fields_view(before).push(fv));
                i = q;
            },
            FieldStep::More => {
                return ParaStep::More;
            },
            FieldStep::Bad => {
                break ;
            },
        }
    }
    match blank_line_at(v, i, fin) {
        Step::Took(n) => ParaStep::Done(i + n, fields),
        Step::More => ParaStep::More,
        Step::Bad => if i == v.len() {
            ParaStep::Done(i, fields)
        } else {
            ParaStep::Bad(i)
        },
    }
}

/// The paragraphs of a document, with an error moved by `offset` characters.
pub open spec fn after(done: Seq<Seq<FieldModel>>, offset: nat, rest: Result<
    Seq<Seq<FieldModel>>,
    nat,
>) -> Result<Seq<Seq<FieldModel>>, nat> {
    match rest {
        Ok(more) => Ok(done + more),
        Err(at) => Err(at + offset),
    }
}

pub open spec fn paragraphs_view(ps: Seq<Paragraph>) -> Seq<Seq<FieldModel>> {
    ps.map_values(|p: Paragraph| p@)
}

/// Attempts to parse a paragraph from the start of `input`, where more input may follow.
///
/// Returns the paragraph and the input after it where a paragraph, its terminator included, can
/// be told apart. Returns [`Streaming::Incomplete`] where the input ends before that; then either
/// read more input and try again, or, where no more input will come, call [`parse_finish`] on all
/// that is left.
pub fn parse_streaming<'a>(input: &'a str) -> (r: Result<
    Streaming<(&'a str, Paragraph)>,
    SyntaxError,
>)
    ensures
        match streaming_result(input@) {
            Ok(Some((n, fields))) => r matches Ok(Streaming::Item((rest, p))) && rest@
                == input@.skip(n as int) && p@ == fields,
            Ok(None) => r matches Ok(Streaming::Incomplete),
            Err(at) => r matches Err(e) && e.offset == at,
        },
{
    let v = chars_of(input);
    assert(v@.skip(0) =~= v@);
    match paragraph_at(&v, 0, false) {
        ParaStep::Done(q, fields) => if fields.len() > 0 {
            let rest = input.substring_char(q, v.len());
            assert(rest@ =~= input@.skip(q as int));
            Ok(Streaming::Item((rest, Paragraph { fields })))
        } else {
            Ok(Streaming::Incomplete)
        },
        ParaStep::More => Ok(Streaming::Incomplete),
        ParaStep::Bad(a) => Err(SyntaxError { offset: a }),
    }
}

/// Parses the last paragraph of input that is known to be complete: what is left once
/// [`parse_streaming`] has returned [`Streaming::Incomplete`] and no more input will come.
/// Returns `None` where the input holds only blank lines and comments.
pub fn parse_finish(input: &str) -> (r: Result<Option<Paragraph>, SyntaxError>)
    ensures
        match finish_result(input@) {
            Ok(Some(fields)) => r matches Ok(Some(p)) && p@ == fields,
            Ok(None) => r matches Ok(None),
            Err(at) => r matches Err(e) && e.offset == at,
        },
{
    let v = chars_of(input);
    assert(v@.skip(0) =~= v@);
    match paragraph_at(&v, 0, true) {
        ParaStep::Done(_, fields) => if fields.len() > 0 {
            Ok(Some(Paragraph { fields }))
        } else {
            Ok(None)
        },
        ParaStep::More => {
            proof {
                lemma_complete_input_decides(v@);
            }
            Ok(None)
        },
        ParaStep::Bad(a) => Err(SyntaxError { offset: a }),
    }
}

/// Parses a complete control file into its paragraphs.
///
/// The whole file must be given at once. An error gives the offset of its line from the start
/// of `input`.
pub fn parse_str(input: &str) -> (r: Result<Vec<Paragraph>, SyntaxError>)
    ensures
        match document(input@) {
            Ok(ps) => r matches Ok(out) && paragraphs_view(out@) == ps,
            Err(at) => r matches Err(e) && e.offset == at,
        },
{
    let v = chars_of(input);
    let mut out: Vec<Paragraph> = Vec::new();
    let mut i: usize = 0;
    assert(v@.skip(0) =~= v@);
    assert(paragraphs_view(out@) =~= seq![]);
    assert(after(seq![], 0, document(v@)) =~= document(v@));
    loop
        invariant
            i <= v@.len(),
            v@ == input@,
            document(v@) == after(paragraphs_view(out@), i as nat, document(v@.skip(i as int))),
        ensures
            i <= v@.len(),
            document(v@) == after(paragraphs_view(out@), i as nat, document(v@.skip(i as int))),
            streaming_result(v@.skip(i as int)) is Ok,
            streaming_result(v@.skip(i as int)) matches Ok(x) && x is None,
        decreases v@.len() - i,
    {
        let ghost s = v@.skip(i as int);
        proof {
            lemma_paragraph_bounded(s, false);
        }
        match paragraph_at(&v, i, false) {
            ParaStep::Done(q, fields) => {
                if fields.len() > 0 {
                    let ghost done = paragraphs_view(out@);
                    let ghost f = fields_view(fields@);
                    out.push(Paragraph { fields });
                    assert(paragraphs_view(out@) =~= done.push(f));
                    proof {
                        lemma_skip_skip(v@, i as int, q - i);
                        match document(v@.skip(q as int)) {
                            Ok(more) => {
                                assert(done + (seq![f] + more) =~= done.push(f) + more);
                            },
                            Err(at) => {},
                        }
                    }
                    i = q;
                } else {
                    break ;
                }
            },
            ParaStep::More => {
                break ;
            },
            ParaStep::Bad(a) => {
                return Err(SyntaxError { offset: a });
            },
        }
    }
    match paragraph_at(&v, i, true) {
        ParaStep::Done(_, fields) => {
            if fields.len() > 0 {
                let ghost done = paragraphs_view(out@);
                let ghost f = fields_view(fields@);
                out.push(Paragraph { fields });
                assert(paragraphs_view(out@) =~= done + seq![f]);
            } else {
                assert(paragraphs_view(out@) =~= paragraphs_view(out@) + seq![]);
            }
            Ok(out)
        },
        ParaStep::More => {
            proof {
                lemma_complete_input_decides(v@.skip(i as int));
            }
            Ok(out)
        },
        ParaStep::Bad(a) => Err(SyntaxError { offset: a }),
    }
}

} // verus!
