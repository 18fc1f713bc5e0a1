//! The control-file grammar, as spec functions over the characters of the remaining input.
//!
//! Every recognizer takes the input that is left (`s`) and a flag `fin` that says whether the
//! input is known to end where it ends (`fin == true`), or whether more text may still follow
//! (`fin == false`). In the second case a recognizer answers `More` wherever the end of the
//! input keeps it from deciding.
use vstd::prelude::*;

verus! {

/// What a line recognizer made of the start of its input.
pub enum Scan {
    /// A line of that kind was recognized; it spans this many characters, line ending included.
    Took(nat),
    /// The input ends before the recognizer can decide.
    More,
    /// The input does not start with a line of that kind.
    Bad,
}

/// Horizontal white space: the mark of a continuation line.
pub open spec fn is_space(c: char) -> bool {
    c == ' ' || c == '\t'
}

/// The characters that end a line's text.
pub open spec fn is_line_break(c: char) -> bool {
    c == '\n' || c == '\r'
}

/// The characters a field name is made of: printable ASCII other than the colon.
pub open spec fn is_name_char(c: char) -> bool {
    '!' <= c && c <= '~' && c != ':'
}

/// The number of spaces and tabs at the start of `s`.
pub open spec fn space_run(s: Seq<char>) -> nat
    decreases s.len(),
{
    if s.len() > 0 && is_space(s[0]) {
        1 + space_run(s.drop_first())
    } else {
        0
    }
}

/// The number of field-name characters at the start of `s`.
pub open spec fn name_run(s: Seq<char>) -> nat
    decreases s.len(),
{
    if s.len() > 0 && is_name_char(s[0]) {
        1 + name_run(s.drop_first())
    } else {
        0
    }
}

/// The number of characters before the first line break in `s` (all of them if there is none).
pub open spec fn text_run(s: Seq<char>) -> nat
    decreases s.len(),
{
    if s.len() > 0 && !is_line_break(s[0]) {
        1 + text_run(s.drop_first())
    } else {
        0
    }
}

/// `s` without the spaces and tabs at its end.
pub open spec fn trim_end(s: Seq<char>) -> Seq<char>
    decreases s.len(),
{
    if s.len() > 0 && is_space(s.last()) {
        trim_end(s.drop_last())
    } else {
        s
    }
}

/// `r`, with `k` more characters taken where a line was recognized.
pub open spec fn shift(r: Scan, k: nat) -> Scan {
    match r {
        Scan::Took(n) => Scan::Took(n + k),
        other => other,
    }
}

/// A line ending, `"\n"` or `"\r\n"`, at the start of `s`.
pub open spec fn line_ending(s: Seq<char>, fin: bool) -> Scan {
    if s.len() == 0 {
        if fin { Scan::Bad } else { Scan::More }
    } else if s[0] == '\n' {
        Scan::Took(1)
    } else if s[0] == '\r' {
        if s.len() == 1 {
            if fin { Scan::Bad } else { Scan::More }
        } else if s[1] == '\n' {
            Scan::Took(2)
        } else {
            Scan::Bad
        }
    } else {
        Scan::Bad
    }
}

/// The rest of a line: its text, then its line ending. Complete input may end a line without one.
pub open spec fn rest_of_line(s: Seq<char>, fin: bool) -> Scan {
    let j = text_run(s);
    if j == s.len() {
        if fin { Scan::Took(j) } else { Scan::More }
    } else {
        shift(line_ending(s.skip(j as int), fin), j)
    }
}

/// The text of the line at the start of `s`, without its trailing white space.
pub open spec fn line_text(s: Seq<char>) -> Seq<char> {
    trim_end(s.take(text_run(s) as int))
}

/// A blank line: white space only, then a line ending. In complete input, white space that runs
/// to the end of the input is a blank line too.
pub open spec fn blank_line(s: Seq<char>, fin: bool) -> Scan {
    let k = space_run(s);
    if fin && 0 < k && k == s.len() {
        Scan::Took(k)
    } else {
        shift(line_ending(s.skip(k as int), fin), k)
    }
}

/// A comment line: `#`, then the rest of the line.
pub open spec fn comment_line(s: Seq<char>, fin: bool) -> Scan {
    if s.len() == 0 {
        if fin { Scan::Bad } else { Scan::More }
    } else if s[0] != '#' {
        Scan::Bad
    } else {
        shift(rest_of_line(s.skip(1), fin), 1)
    }
}

/// A continuation line: white space, then the rest of the line.
pub open spec fn continuation_line(s: Seq<char>, fin: bool) -> Scan {
    if s.len() == 0 {
        if fin { Scan::Bad } else { Scan::More }
    } else if !is_space(s[0]) {
        Scan::Bad
    } else {
        shift(rest_of_line(s.skip(space_run(s) as int), fin), space_run(s))
    }
}

/// What a continuation line adds to its field's value.
pub open spec fn continuation_text(s: Seq<char>) -> Seq<char> {
    line_text(s.skip(space_run(s) as int))
}

/// Where the value starts on a field definition line: after the name, the colon and the white
/// space that follows it.
pub open spec fn value_start(s: Seq<char>) -> nat {
    name_run(s) + 1 + space_run(s.skip(name_run(s) + 1int))
}

/// A field definition line: a name that does not start with `#` or `-`, a colon, white space,
/// and the first line of the value.
pub open spec fn definition_line(s: Seq<char>, fin: bool) -> Scan {
    let k = name_run(s);
    if k == 0 {
        if s.len() == 0 && !fin { Scan::More } else { Scan::Bad }
    } else if k == s.len() {
        if fin { Scan::Bad } else { Scan::More }
    } else if s[0] == '#' || s[0] == '-' || s[k as int] != ':' {
        Scan::Bad
    } else {
        shift(rest_of_line(s.skip(value_start(s) as int), fin), value_start(s))
    }
}

/// The name given by a field definition line.
pub open spec fn definition_name(s: Seq<char>) -> Seq<char> {
    s.take(name_run(s) as int)
}

/// The first line of the value given by a field definition line.
pub open spec fn definition_text(s: Seq<char>) -> Seq<char> {
    line_text(s.skip(value_start(s) as int))
}

/// A field as the grammar sees it: its name and its value.
pub type FieldModel = (Seq<char>, Seq<char>);

/// What the grammar made of the lines that follow a field definition.
pub enum FieldScan {
    /// The field ends after `used` characters of the input, with this value.
    Done { used: nat, value: Seq<char> },
    /// The input ends before the field's end can be told.
    More,
}

/// `s` without the line breaks at its start.
pub open spec fn trim_leading_breaks(s: Seq<char>) -> Seq<char>
    decreases s.len(),
{
    if s.len() > 0 && s[0] == '\n' {
        trim_leading_breaks(s.drop_first())
    } else {
        s
    }
}

/// `s` without the line breaks at its end.
pub open spec fn trim_trailing_breaks(s: Seq<char>) -> Seq<char>
    decreases s.len(),
{
    if s.len() > 0 && s.last() == '\n' {
        trim_trailing_breaks(s.drop_last())
    } else {
        s
    }
}

/// A field's value as it is handed out: the joined lines without line breaks at either end, so
/// that empty lines at its start or end (an empty first line, blank continuation lines) are left
/// out.
pub open spec fn field_value(joined: Seq<char>) -> Seq<char> {
    trim_trailing_breaks(trim_leading_breaks(joined))
}

/// A whole field, definition line and following lines.
pub enum FieldDef {
    Done { used: nat, field: FieldModel },
    More,
    Bad,
}

/// What the grammar made of the input at a paragraph's start.
pub enum ParaScan {
    /// A paragraph ends after `used` characters; `fields` is empty where there was none.
    Done { used: nat, fields: Seq<FieldModel> },
    /// The input ends before the paragraph's end can be told.
    More,
    /// The line at this character offset cannot be parsed.
    Bad { at: nat },
}

/// The lines after a field definition: continuation lines, each of which adds a line break and
/// its text to `value`, and comment lines, which add nothing. `used` counts the characters that
/// the field took before `s`.
pub open spec fn field_rest(
    s: Seq<char>,
    fin: bool,
    value: Seq<char>,
    used: nat,
) -> FieldScan
    decreases s.len(),
{
    proof {
        lemma_lines_advance(s, fin);
    }
    match continuation_line(s, fin) {
        Scan::Took(n) => field_rest(
            s.skip(n as int),
            fin,
            value + seq!['\n'] + continuation_text(s),
            used + n,
        ),
        Scan::More => FieldScan::More,
        Scan::Bad => match comment_line(s, fin) {
            Scan::Took(n) => field_rest(s.skip(n as int), fin, value, used + n),
            Scan::More => FieldScan::More,
            Scan::Bad => FieldScan::Done { used, value },
        },
    }
}

/// A field: its definition line and the lines that continue it.
pub open spec fn field(s: Seq<char>, fin: bool) -> FieldDef {
    match definition_line(s, fin) {
        Scan::Took(n) => match field_rest(s.skip(n as int), fin, definition_text(s), n) {
            FieldScan::Done { used, value } => FieldDef::Done {
                used,
                field: (definition_name(s), field_value(value)),
            },
            FieldScan::More => FieldDef::More,
        },
        Scan::More => FieldDef::More,
        Scan::Bad => FieldDef::Bad,
    }
}

/// The blank and comment lines before a paragraph: `Some` of the number of characters they
/// span (counting on from `used`), or `None` where the input ends before that can be told.
pub open spec fn leading_lines(s: Seq<char>, fin: bool, used: nat) -> Option<nat>
    decreases s.len(),
{
    proof {
        lemma_lines_advance(s, fin);
    }
    match blank_line(s, fin) {
        Scan::Took(n) => leading_lines(s.skip(n as int), fin, used + n),
        Scan::More => None,
        Scan::Bad => match comment_line(s, fin) {
            Scan::Took(n) => leading_lines(s.skip(n as int), fin, used + n),
            Scan::More => None,
            Scan::Bad => Some(used),
        },
    }
}

/// What ends a paragraph: a blank line, or the end of complete input.
pub open spec fn terminator(
    s: Seq<char>,
    fin: bool,
    used: nat,
    fields: Seq<FieldModel>,
) -> ParaScan {
    match blank_line(s, fin) {
        Scan::Took(n) => ParaScan::Done { used: used + n, fields },
        Scan::More => ParaScan::More,
        Scan::Bad => if s.len() == 0 {
            ParaScan::Done { used, fields }
        } else {
            ParaScan::Bad { at: used }
        },
    }
}

/// The fields of a paragraph, appended to `fields`, then its terminator.
pub open spec fn field_list(
    s: Seq<char>,
    fin: bool,
    used: nat,
    fields: Seq<FieldModel>,
) -> ParaScan
    decreases s.len(),
{
    proof {
        lemma_field_advances(s, fin);
    }
    match field(s, fin) {
        FieldDef::Done { used: n, field: f } => field_list(
            s.skip(n as int),
            fin,
            used + n,
            fields.push(f),
        ),
        FieldDef::More => ParaScan::More,
        FieldDef::Bad => terminator(s, fin, used, fields),
    }
}

/// A paragraph at the start of `s`: leading blank and comment lines, its fields, its terminator.
#[verifier::opaque]
pub open spec fn paragraph(s: Seq<char>, fin: bool) -> ParaScan {
    match leading_lines(s, fin, 0) {
        Some(k) => field_list(s.skip(k as int), fin, k, seq![]),
        None => ParaScan::More,
    }
}

/// What parsing in streaming mode owes for input `s`: `Ok(Some((used, fields)))` where a
/// paragraph of at least one field and its terminator span the first `used` characters,
/// `Ok(None)` where more input is needed to decide, `Err(at)` where the line at offset `at` can
/// never be part of a valid paragraph.
pub open spec fn streaming_result(s: Seq<char>) -> Result<
    Option<(nat, Seq<FieldModel>)>,
    nat,
> {
    match paragraph(s, false) {
        ParaScan::Done { used, fields } => if fields.len() > 0 {
            Ok(Some((used, fields)))
        } else {
            Ok(None)
        },
        ParaScan::More => Ok(None),
        ParaScan::Bad { at } => Err(at),
    }
}

/// What parsing owes for input `s` that is known to be complete: `Ok(Some(fields))` for a last
/// paragraph, `Ok(None)` where `s` holds only blank and comment lines, `Err(at)` as above.
pub open spec fn finish_result(s: Seq<char>) -> Result<Option<Seq<FieldModel>>, nat> {
    match paragraph(s, true) {
        ParaScan::Done { fields, .. } => if fields.len() > 0 {
            Ok(Some(fields))
        } else {
            Ok(None)
        },
        ParaScan::More => Ok(None),
        ParaScan::Bad { at } => Err(at),
    }
}

/// All paragraphs of a complete document: paragraphs are taken in streaming mode while there are
/// any, then what is left is finished. An error carries the offset of its line in `s`.
pub open spec fn document(s: Seq<char>) -> Result<Seq<Seq<FieldModel>>, nat>
    decreases s.len(),
{
    proof {
        lemma_paragraph_bounded(s, false);
    }
    match streaming_result(s) {
        Ok(Some((n, fields))) => match document(s.skip(n as int)) {
            Ok(rest) => Ok(seq![fields] + rest),
            Err(at) => Err(at + n),
        },
        Ok(None) => match finish_result(s) {
            Ok(Some(fields)) => Ok(seq![fields]),
            Ok(None) => Ok(seq![]),
            Err(at) => Err(at),
        },
        Err(at) => Err(at),
    }
}

pub proof fn lemma_runs_bounded(s: Seq<char>)
    ensures
        space_run(s) <= s.len(),
        name_run(s) <= s.len(),
        text_run(s) <= s.len(),
    decreases s.len(),
{
    if s.len() > 0 {
        lemma_runs_bounded(s.drop_first());
    }
}

pub proof fn lemma_lines_advance(s: Seq<char>, fin: bool)
    ensures
        blank_line(s, fin) matches Scan::Took(n) ==> 0 < n <= s.len(),
        comment_line(s, fin) matches Scan::Took(n) ==> 0 < n <= s.len(),
        continuation_line(s, fin) matches Scan::Took(n) ==> 0 < n <= s.len(),
        definition_line(s, fin) matches Scan::Took(n) ==> 0 < n <= s.len(),
{
    lemma_runs_bounded(s);
    lemma_runs_bounded(s.skip(1));
    lemma_runs_bounded(s.skip(space_run(s) as int));
    if name_run(s) < s.len() {
        lemma_runs_bounded(s.skip(name_run(s) + 1int));
        if value_start(s) <= s.len() {
            lemma_runs_bounded(s.skip(value_start(s) as int));
        }
    }
}

pub proof fn lemma_field_rest_bounded(s: Seq<char>, fin: bool, value: Seq<char>, used: nat)
    ensures
        field_rest(s, fin, value, used) matches FieldScan::Done { used: u, .. } ==> used <= u
            <= used + s.len(),
    decreases s.len(),
{
    lemma_lines_advance(s, fin);
    match continuation_line(s, fin) {
        Scan::Took(n) => lemma_field_rest_bounded(
            s.skip(n as int),
            fin,
            value + seq!['\n'] + continuation_text(s),
            used + n,
        ),
        Scan::More => {},
        Scan::Bad => match comment_line(s, fin) {
            Scan::Took(n) => lemma_field_rest_bounded(s.skip(n as int), fin, value, used + n),
            _ => {},
        },
    }
}

pub proof fn lemma_field_advances(s: Seq<char>, fin: bool)
    ensures
        field(s, fin) matches FieldDef::Done { used: n, .. } ==> 0 < n <= s.len(),
{
    lemma_lines_advance(s, fin);
    if let Scan::Took(n) = definition_line(s, fin) {
        lemma_field_rest_bounded(s.skip(n as int), fin, definition_text(s), n);
    }
}

pub proof fn lemma_leading_lines_bounded(s: Seq<char>, fin: bool, used: nat)
    ensures
        leading_lines(s, fin, used) matches Some(k) ==> used <= k <= used + s.len(),
    decreases s.len(),
{
    lemma_lines_advance(s, fin);
    match blank_line(s, fin) {
        Scan::Took(n) => lemma_leading_lines_bounded(s.skip(n as int), fin, used + n),
        Scan::More => {},
        Scan::Bad => match comment_line(s, fin) {
            Scan::Took(n) => lemma_leading_lines_bounded(s.skip(n as int), fin, used + n),
            _ => {},
        },
    }
}

pub proof fn lemma_terminator_bounded(
    s: Seq<char>,
    fin: bool,
    used: nat,
    fields: Seq<FieldModel>,
)
    ensures
        terminator(s, fin, used, fields) matches ParaScan::Done { used: u, fields: f } ==> used
            <= u <= used + s.len() && f == fields,
        terminator(s, fin, used, fields) matches ParaScan::Bad { at } ==> at == used,
{
    lemma_lines_advance(s, fin);
}

pub proof fn lemma_field_list_bounded(
    s: Seq<char>,
    fin: bool,
    used: nat,
    fields: Seq<FieldModel>,
)
    ensures
        field_list(s, fin, used, fields) matches ParaScan::Done { used: u, fields: f } ==> used
            <= u <= used + s.len() && (f.len() > fields.len() ==> used < u) && f.len()
            >= fields.len(),
        field_list(s, fin, used, fields) matches ParaScan::Bad { at } ==> used <= at <= used
            + s.len(),
    decreases s.len(),
{
    lemma_field_advances(s, fin);
    lemma_terminator_bounded(s, fin, used, fields);
    if let FieldDef::Done { used: n, field: f } = field(s, fin) {
        lemma_field_list_bounded(s.skip(n as int), fin, used + n, fields.push(f));
    }
}

pub proof fn lemma_paragraph_bounded(s: Seq<char>, fin: bool)
    ensures
        paragraph(s, fin) matches ParaScan::Done { used, fields } ==> used <= s.len() && (
        fields.len() > 0 ==> used > 0),
        paragraph(s, fin) matches ParaScan::Bad { at } ==> at <= s.len(),
{
    reveal(paragraph);
    lemma_leading_lines_bounded(s, fin, 0);
    if let Some(k) = leading_lines(s, fin, 0) {
        lemma_field_list_bounded(s.skip(k as int), fin, k, seq![]);
    }
}

/// A field name that starts with `-` is an error as soon as the character that ends the name has
/// been read: after the blank and comment lines that come first (they end at offset `k`),
/// streaming mode does not wait for more input, whatever could follow.
pub proof fn lemma_hyphen_name_is_an_error(s: Seq<char>, k: nat)
    requires
        leading_lines(s, false, 0) == Some(k),
        k < s.len(),
        s[k as int] == '-',
        name_run(s.skip(k as int)) < s.len() - k,
    ensures
        streaming_result(s) == Err::<Option<(nat, Seq<FieldModel>)>, nat>(k),
{
    reveal(paragraph);
    let r = s.skip(k as int);
    assert(r.skip(0) =~= r);
    assert(space_run(r) == 0);
    assert(name_run(r) > 0);
}

proof fn lemma_skip_concat(s: Seq<char>, t: Seq<char>, j: int)
    requires
        0 <= j <= s.len(),
    ensures
        (s + t).skip(j) == s.skip(j) + t,
{
    assert((s + t).skip(j) =~= s.skip(j) + t);
}

proof fn lemma_runs_extend(s: Seq<char>, t: Seq<char>)
    ensures
        space_run(s) < s.len() ==> space_run(s + t) == space_run(s),
        name_run(s) < s.len() ==> name_run(s + t) == name_run(s),
        text_run(s) < s.len() ==> text_run(s + t) == text_run(s),
    decreases s.len(),
{
    if s.len() > 0 {
        assert((s + t).drop_first() =~= s.drop_first() + t);
        lemma_runs_extend(s.drop_first(), t);
    }
}

proof fn lemma_rest_of_line_extend(s: Seq<char>, t: Seq<char>)
    ensures
        !(rest_of_line(s, false) is More) ==> rest_of_line(s + t, false) == rest_of_line(s, false)
            && line_text(s + t) == line_text(s),
{
    lemma_runs_extend(s, t);
    lemma_runs_bounded(s);
    let j = text_run(s);
    if j < s.len() {
        lemma_skip_concat(s, t, j as int);
        assert((s + t).take(j as int) =~= s.take(j as int));
    }
}

proof fn lemma_blank_line_extend(s: Seq<char>, t: Seq<char>)
    ensures
        !(blank_line(s, false) is More) ==> blank_line(s + t, false) == blank_line(s, false),
{
    lemma_runs_extend(s, t);
    lemma_runs_bounded(s);
    let k = space_run(s);
    if k < s.len() {
        lemma_skip_concat(s, t, k as int);
    }
}

proof fn lemma_comment_line_extend(s: Seq<char>, t: Seq<char>)
    ensures
        !(comment_line(s, false) is More) ==> comment_line(s + t, false) == comment_line(s, false),
{
    if s.len() > 0 && s[0] == '#' {
        lemma_skip_concat(s, t, 1);
        lemma_rest_of_line_extend(s.skip(1), t);
    }
}

proof fn lemma_continuation_line_extend(s: Seq<char>, t: Seq<char>)
    ensures
        !(continuation_line(s, false) is More) ==> continuation_line(s + t, false)
            == continuation_line(s, false),
        continuation_line(s, false) is Took ==> continuation_text(s + t) == continuation_text(s),
{
    lemma_runs_extend(s, t);
    lemma_runs_bounded(s);
    if s.len() > 0 && is_space(s[0]) {
        let k = space_run(s);
        if k < s.len() {
            lemma_skip_concat(s, t, k as int);
            lemma_rest_of_line_extend(s.skip(k as int), t);
        }
    }
}

proof fn lemma_definition_line_extend(s: Seq<char>, t: Seq<char>)
    ensures
        !(definition_line(s, false) is More) ==> definition_line(s + t, false) == definition_line(
            s,
            false,
        ),
        definition_line(s, false) is Took ==> definition_name(s + t) == definition_name(s)
            && definition_text(s + t) == definition_text(s),
{
    lemma_runs_extend(s, t);
    lemma_runs_bounded(s);
    let k = name_run(s);
    if 0 < k < s.len() {
        lemma_skip_concat(s, t, k + 1int);
        lemma_runs_extend(s.skip(k + 1int), t);
        lemma_runs_bounded(s.skip(k + 1int));
        assert((s + t).take(k as int) =~= s.take(k as int));
        let m = value_start(s);
        if m < s.len() {
            lemma_skip_concat(s, t, m as int);
            lemma_rest_of_line_extend(s.skip(m as int), t);
        }
    }
}

proof fn lemma_field_rest_extend(s: Seq<char>, t: Seq<char>, value: Seq<char>, used: nat)
    ensures
        field_rest(s, false, value, used) is Done ==> field_rest(s + t, false, value, used)
            == field_rest(s, false, value, used),
    decreases s.len(),
{
    lemma_lines_advance(s, false);
    lemma_continuation_line_extend(s, t);
    lemma_comment_line_extend(s, t);
    match continuation_line(s, false) {
        Scan::Took(n) => {
            lemma_skip_concat(s, t, n as int);
            lemma_field_rest_extend(
                s.skip(n as int),
                t,
                value + seq!['\n'] + continuation_text(s),
                used + n,
            );
        },
        Scan::More => {},
        Scan::Bad => {
            if let Scan::Took(n) = comment_line(s, false) {
                lemma_skip_concat(s, t, n as int);
                lemma_field_rest_extend(s.skip(n as int), t, value, used + n);
            }
        },
    }
}

proof fn lemma_field_extend(s: Seq<char>, t: Seq<char>)
    ensures
        !(field(s, false) is More) ==> field(s + t, false) == field(s, false),
{
    lemma_lines_advance(s, false);
    lemma_definition_line_extend(s, t);
    if let Scan::Took(n) = definition_line(s, false) {
        lemma_skip_concat(s, t, n as int);
        lemma_field_rest_extend(s.skip(n as int), t, definition_text(s), n);
    }
}

proof fn lemma_leading_lines_extend(s: Seq<char>, t: Seq<char>, used: nat)
    ensures
        leading_lines(s, false, used) is Some ==> leading_lines(s + t, false, used)
            == leading_lines(s, false, used),
    decreases s.len(),
{
    lemma_lines_advance(s, false);
    lemma_blank_line_extend(s, t);
    lemma_comment_line_extend(s, t);
    match blank_line(s, false) {
        Scan::Took(n) => {
            lemma_skip_concat(s, t, n as int);
            lemma_leading_lines_extend(s.skip(n as int), t, used + n);
        },
        Scan::More => {},
        Scan::Bad => {
            if let Scan::Took(n) = comment_line(s, false) {
                lemma_skip_concat(s, t, n as int);
                lemma_leading_lines_extend(s.skip(n as int), t, used + n);
            }
        },
    }
}

proof fn lemma_field_list_extend(
    s: Seq<char>,
    t: Seq<char>,
    used: nat,
    fields: Seq<FieldModel>,
)
    ensures
        !(field_list(s, false, used, fields) is More) ==> field_list(s + t, false, used, fields)
            == field_list(s, false, used, fields),
    decreases s.len(),
{
    lemma_field_advances(s, false);
    lemma_field_extend(s, t);
    lemma_blank_line_extend(s, t);
    assert(s.skip(0) =~= s);
    match field(s, false) {
        FieldDef::Done { used: n, field: f } => {
            lemma_skip_concat(s, t, n as int);
            lemma_field_list_extend(s.skip(n as int), t, used + n, fields.push(f));
        },
        _ => {},
    }
}

/// Input that follows does not change a decision of streaming mode: where the input read so far
/// already gives a paragraph, or an error, any longer input that starts with it gives the same.
pub proof fn lemma_streaming_decisions_are_final(s: Seq<char>, t: Seq<char>)
    ensures
        streaming_result(s) matches Ok(Some(_)) ==> streaming_result(s + t) == streaming_result(s),
        streaming_result(s) is Err ==> streaming_result(s + t) == streaming_result(s),
{
    reveal(paragraph);
    lemma_leading_lines_extend(s, t, 0);
    lemma_leading_lines_bounded(s, false, 0);
    if let Some(k) = leading_lines(s, false, 0) {
        lemma_skip_concat(s, t, k as int);
        lemma_field_list_extend(s.skip(k as int), t, k, seq![]);
    }
}

/// Empty input holds no paragraph, in either mode.
pub proof fn lemma_empty_document()
    ensures
        streaming_result(Seq::<char>::empty()) == Ok::<Option<(nat, Seq<FieldModel>)>, nat>(None),
        finish_result(Seq::<char>::empty()) == Ok::<Option<Seq<FieldModel>>, nat>(None),
        document(Seq::<char>::empty()) == Ok::<Seq<Seq<FieldModel>>, nat>(seq![]),
{
    reveal(paragraph);
    let e = Seq::<char>::empty();
    assert(e.skip(0) =~= e);
    assert(space_run(e) == 0);
    assert(name_run(e) == 0);
    assert(streaming_result(e) is Ok);
    assert(finish_result(e) is Ok);
}

proof fn lemma_field_rest_decides(s: Seq<char>, value: Seq<char>, used: nat)
    ensures
        field_rest(s, true, value, used) is Done,
    decreases s.len(),
{
    lemma_lines_advance(s, true);
    match continuation_line(s, true) {
        Scan::Took(n) => lemma_field_rest_decides(
            s.skip(n as int),
            value + seq!['\n'] + continuation_text(s),
            used + n,
        ),
        _ => {
            if let Scan::Took(n) = comment_line(s, true) {
                lemma_field_rest_decides(s.skip(n as int), value, used + n);
            }
        },
    }
}

proof fn lemma_leading_lines_decide(s: Seq<char>, used: nat)
    ensures
        leading_lines(s, true, used) is Some,
    decreases s.len(),
{
    lemma_lines_advance(s, true);
    match blank_line(s, true) {
        Scan::Took(n) => lemma_leading_lines_decide(s.skip(n as int), used + n),
        _ => {
            if let Scan::Took(n) = comment_line(s, true) {
                lemma_leading_lines_decide(s.skip(n as int), used + n);
            }
        },
    }
}

proof fn lemma_field_list_decides(s: Seq<char>, used: nat, fields: Seq<FieldModel>)
    ensures
        !(field_list(s, true, used, fields) is More),
    decreases s.len(),
{
    lemma_field_advances(s, true);
    if let Scan::Took(n) = definition_line(s, true) {
        lemma_field_rest_decides(s.skip(n as int), definition_text(s), n);
    }
    if let FieldDef::Done { used: n, field: f } = field(s, true) {
        lemma_field_list_decides(s.skip(n as int), used + n, fields.push(f));
    }
}

/// Complete input is always decided: where the input is known to end where it ends, the
/// grammar never answers that more input is needed.
pub proof fn lemma_complete_input_decides(s: Seq<char>)
    ensures
        !(paragraph(s, true) is More),
{
    reveal(paragraph);
    lemma_leading_lines_decide(s, 0);
    lemma_leading_lines_bounded(s, true, 0);
    if let Some(k) = leading_lines(s, true, 0) {
        lemma_field_list_decides(s.skip(k as int), k, seq![]);
    }
}

/// `v` neither begins nor ends with a line break.
pub open spec fn no_outer_breaks(v: Seq<char>) -> bool {
    v.len() == 0 || (v[0] != '\n' && v.last() != '\n')
}

proof fn lemma_trim_leading_breaks(s: Seq<char>)
    ensures
        trim_leading_breaks(s).len() == 0 || trim_leading_breaks(s)[0] != '\n',
    decreases s.len(),
{
    if s.len() > 0 && s[0] == '\n' {
        lemma_trim_leading_breaks(s.drop_first());
    }
}

proof fn lemma_trim_trailing_breaks(s: Seq<char>)
    ensures
        trim_trailing_breaks(s).len() <= s.len(),
        trim_trailing_breaks(s) == s.take(trim_trailing_breaks(s).len() as int),
        trim_trailing_breaks(s).len() == 0 || trim_trailing_breaks(s).last() != '\n',
    decreases s.len(),
{
    if s.len() > 0 && s.last() == '\n' {
        lemma_trim_trailing_breaks(s.drop_last());
        let t = trim_trailing_breaks(s.drop_last());
        assert(s.drop_last().take(t.len() as int) =~= s.take(t.len() as int));
    } else {
        assert(s.take(s.len() as int) =~= s);
    }
}

proof fn lemma_field_value_has_no_outer_breaks(joined: Seq<char>)
    ensures
        no_outer_breaks(field_value(joined)),
{
    let y = trim_leading_breaks(joined);
    lemma_trim_leading_breaks(joined);
    lemma_trim_trailing_breaks(y);
    let v = trim_trailing_breaks(y);
    if v.len() > 0 {
        assert(v[0] == y.take(v.len() as int)[0]);
    }
}

proof fn lemma_field_list_values(s: Seq<char>, fin: bool, used: nat, fields: Seq<FieldModel>)
    requires
        forall|i: int| 0 <= i < fields.len() ==> no_outer_breaks(#[trigger] fields[i].1),
    ensures
        field_list(s, fin, used, fields) matches ParaScan::Done { fields: f, .. } ==> forall|i: int|
            0 <= i < f.len() ==> no_outer_breaks(#[trigger] f[i].1),
    decreases s.len(),
{
    lemma_field_advances(s, fin);
    lemma_terminator_bounded(s, fin, used, fields);
    if let Scan::Took(n) = definition_line(s, fin) {
        if let FieldScan::Done { value, .. } = field_rest(
            s.skip(n as int),
            fin,
            definition_text(s),
            n,
        ) {
            lemma_field_value_has_no_outer_breaks(value);
        }
    }
    if let FieldDef::Done { used: n, field: f } = field(s, fin) {
        let more = fields.push(f);
        assert forall|i: int| 0 <= i < more.len() implies no_outer_breaks(#[trigger] more[i].1) by {
            if i < fields.len() {
                assert(more[i] == fields[i]);
            }
        }
        lemma_field_list_values(s.skip(n as int), fin, used + n, more);
    }
}

/// No field value begins or ends with a line break, in either mode.
pub proof fn lemma_values_have_no_outer_breaks(s: Seq<char>, fin: bool)
    ensures
        paragraph(s, fin) matches ParaScan::Done { fields, .. } ==> forall|i: int|
            0 <= i < fields.len() ==> no_outer_breaks(#[trigger] fields[i].1),
{
    reveal(paragraph);
    if let Some(k) = leading_lines(s, fin, 0) {
        lemma_field_list_values(s.skip(k as int), fin, k, seq![]);
    }
}

} // verus!
