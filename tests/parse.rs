use oma_debcontrol::{parse_finish, parse_str, parse_streaming, Field, Paragraph, Streaming, SyntaxError};

fn field(name: &str, value: &str) -> Field {
    Field {
        name: name.to_string(),
        value: value.to_string(),
    }
}

#[test]
fn should_parse_completed_paragraph() {
    let result = parse_streaming(
        "field: value\nfield2: value2\n# comment 1\nfield3: line1\n line2\n# comment 2\n line3\n\n",
    );
    assert_eq!(
        result.unwrap(),
        Streaming::Item((
            "",
            Paragraph::new(vec![
                field("field", "value"),
                field("field2", "value2"),
                field("field3", "line1\nline2\nline3"),
            ])
        ))
    );
}

#[test]
fn should_parse_completed_paragraph_followed_by_partial_paragraph() {
    let result = parse_streaming(
        "\n# comment\nfield: value\n cont\n\n# comment\n\nfield2: value2\n# comment\n",
    );
    assert_eq!(
        result.unwrap(),
        Streaming::Item((
            "# comment\n\nfield2: value2\n# comment\n",
            Paragraph::new(vec![field("field", "value\ncont")])
        ))
    );
}

#[test]
fn should_return_incomplete_on_incomplete_field_definition() {
    let result = parse_streaming("field");
    assert!(matches!(result, Ok(Streaming::Incomplete)));
}

#[test]
fn should_return_incomplete_on_field_definition_without_trailing_newline() {
    let result = parse_streaming("field: value");
    assert!(matches!(result, Ok(Streaming::Incomplete)));
}

#[test]
fn should_return_incomplete_on_paragraph_without_trailing_empty_line() {
    let result = parse_streaming("field: value\n continuation\n");
    assert!(matches!(result, Ok(Streaming::Incomplete)));
}

#[test]
fn should_return_incomplete_on_paragraph_without_trailing_newline() {
    let result = parse_streaming("field: value\n continuation");
    assert!(matches!(result, Ok(Streaming::Incomplete)));
}

#[test]
fn should_return_incomplete_on_empty_string() {
    let result = parse_streaming("");
    assert!(matches!(result, Ok(Streaming::Incomplete)));
}

#[test]
fn should_return_incomplete_on_input_without_paragraph() {
    let result = parse_streaming("\n\t\t\n\n# comment\n# comment\n\n\t\n\n\n# comment");
    assert!(matches!(result, Ok(Streaming::Incomplete)));
}

#[test]
fn should_return_error_on_unexpected_continuation() {
    let result = parse_streaming("\tunexpected continuation\n");
    assert!(matches!(result, Err(_)));
}

#[test]
fn should_return_error_on_incomplete_field_definition() {
    let result = parse_streaming("field\n\n");
    assert!(matches!(result, Err(_)));
}

#[test]
fn should_return_error_on_field_name_starting_with_hyphen() {
    let result = parse_streaming("-field: value");
    assert!(matches!(result, Err(_)));
}

#[test]
fn should_return_error_on_invalid_field_name() {
    let result = parse_streaming("field äöü: value\n\n");
    assert!(matches!(result, Err(_)));
}

#[test]
fn should_parse_paragraph_with_trailing_whitespace() {
    let item = parse_finish("field: value\nfield2: value\n\n# comment\n\n\n\n");
    assert_eq!(
        item.unwrap(),
        Some(Paragraph::new(vec![
            field("field", "value"),
            field("field2", "value")
        ]))
    );
}

#[test]
fn should_parse_paragraph_without_trailing_newline() {
    let item = parse_finish("field: value\nfield2: line1\n# comment\n\tline2");
    assert_eq!(
        item.unwrap(),
        Some(Paragraph::new(vec![
            field("field", "value"),
            field("field2", "line1\nline2")
        ]))
    );
}

#[test]
fn tests_should_return_error_on_incomplete_field_definition() {
    let result = parse_finish("field");
    assert!(matches!(result, Err(_)));
}

#[test]
fn should_parse_multiple_paragraphs() {
    let items = parse_str(
        "# comment\n\nfield: value\nfield2: line1\n line2\n# comment\n\nfield3: value3\nfield4: value4\n\n# comment\n\nfield5: value5\nfield6: value6",
    );
    assert_eq!(
        items.unwrap(),
        vec![
            Paragraph::new(vec![
                field("field", "value"),
                field("field2", "line1\nline2"),
            ]),
            Paragraph::new(vec![field("field3", "value3"), field("field4", "value4")]),
            Paragraph::new(vec![field("field5", "value5"), field("field6", "value6")]),
        ]
    )
}

#[test]
fn should_parse_empty_input() {
    let items = parse_str("\n\t\t\n\n# comment\n\t\n\n    \n\n");
    assert_eq!(items.unwrap(), vec![]);
}

#[test]
fn should_return_error_on_invalid_syntax() {
    let result = parse_str("field 15: value\n");
    assert!(matches!(result, Err(_)));
}

#[test]
fn folds_continuation_lines_into_one_value() {
    let result = parse_streaming("field: value\n line2\n line3\n\n").unwrap();
    assert_eq!(
        result,
        Streaming::Item((
            "",
            Paragraph::new(vec![field("field", "value\nline2\nline3")])
        ))
    );
}

#[test]
fn comments_do_not_break_a_continuation_run() {
    let result = parse_streaming("field: 1\n# c\n 2\n# c\n 3\n\n").unwrap();
    assert_eq!(
        result,
        Streaming::Item(("", Paragraph::new(vec![field("field", "1\n2\n3")])))
    );
}

#[test]
fn rejects_a_hyphen_name_even_with_more_input_to_come() {
    let result = parse_streaming("-field: value\n\n");
    assert_eq!(result, Err(SyntaxError { offset: 0 }));
}

#[test]
fn syntax_error_gives_the_offset_of_its_line() {
    let result = parse_streaming("# c\na: b\n-x: y\n\n");
    assert_eq!(result, Err(SyntaxError { offset: 9 }));
    let result = parse_str("a: b\n\nc: d\n e\n f g\nh i\n");
    assert_eq!(result, Err(SyntaxError { offset: 19 }));
}

#[test]
fn name_without_colon_is_an_error_in_both_modes() {
    assert!(matches!(parse_streaming("name value\n\n"), Err(_)));
    assert!(matches!(parse_finish("name value"), Err(_)));
}

#[test]
fn strips_white_space_around_each_value_line() {
    let result = parse_finish("a:   x  \n  y\t \n").unwrap();
    assert_eq!(result, Some(Paragraph::new(vec![field("a", "x\ny")])));
}

#[test]
fn accepts_crlf_line_endings() {
    let result = parse_streaming("a: b\r\n c\r\n\r\nrest").unwrap();
    assert_eq!(
        result,
        Streaming::Item(("rest", Paragraph::new(vec![field("a", "b\nc")])))
    );
}

#[test]
fn a_lone_carriage_return_is_an_error() {
    assert!(matches!(parse_streaming("a: b\rc\n\n"), Err(_)));
    assert!(matches!(parse_finish("a: b\r"), Err(_)));
}

#[test]
fn carriage_return_at_the_end_of_streaming_input_is_incomplete() {
    assert!(matches!(parse_streaming("a: b\r"), Ok(Streaming::Incomplete)));
}

#[test]
fn keeps_duplicate_field_names_in_order() {
    let result = parse_str("a: 1\nb: 2\na: 3\n").unwrap();
    assert_eq!(
        result,
        vec![Paragraph::new(vec![
            field("a", "1"),
            field("b", "2"),
            field("a", "3")
        ])]
    );
}

#[test]
fn empty_first_line_is_left_out_of_the_value() {
    let result = parse_finish("Files:\n abc\n def").unwrap();
    assert_eq!(
        result,
        Some(Paragraph::new(vec![field("Files", "abc\ndef")]))
    );
    let result = parse_streaming("a:\n b\n\n").unwrap();
    assert_eq!(
        result,
        Streaming::Item(("", Paragraph::new(vec![field("a", "b")])))
    );
}

#[test]
fn blank_continuation_lines_at_the_end_are_left_out_of_the_value() {
    let result = parse_streaming("a: b\n \n\t\n\nc: d\n\n").unwrap();
    assert_eq!(
        result,
        Streaming::Item(("c: d\n\n", Paragraph::new(vec![field("a", "b")])))
    );
}

#[test]
fn blank_continuation_lines_inside_the_value_are_kept() {
    let result = parse_finish("a: b\n \n c\n").unwrap();
    assert_eq!(result, Some(Paragraph::new(vec![field("a", "b\n\nc")])));
}

#[test]
fn white_space_only_last_line_counts_as_blank() {
    assert_eq!(parse_finish(" "), Ok(None));
    assert_eq!(parse_finish("\n# c\n \t"), Ok(None));
    assert_eq!(
        parse_finish("a: b\n\n  "),
        Ok(Some(Paragraph::new(vec![field("a", "b")])))
    );
    assert_eq!(parse_str("a: b\n\n\t").unwrap().len(), 1);
}

#[test]
fn blank_lines_after_a_paragraph_are_left_for_the_next_call() {
    let result = parse_streaming("a: b\n\n\n\nc: d\n\n").unwrap();
    assert_eq!(
        result,
        Streaming::Item(("\n\nc: d\n\n", Paragraph::new(vec![field("a", "b")])))
    );
}

#[test]
fn finish_on_blank_and_comment_lines_only_is_none() {
    assert_eq!(parse_finish("\n# c\n  \n"), Ok(None));
    assert_eq!(parse_finish(""), Ok(None));
}

#[test]
fn hyphen_name_after_comment_and_blank_lines_is_an_error() {
    assert_eq!(
        parse_streaming("# c\n\n-field: value"),
        Err(SyntaxError { offset: 5 })
    );
}
