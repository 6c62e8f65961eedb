use lambda_lang::errors::{__build_report, can_build_report, highlight, Error, Highlight};
use lambda_lang::span::{Offset, SourceFiles, Span};

#[test]
fn test_build_report1() {
    let mut src_files = SourceFiles::new();
    src_files.new_source_file(
        String::from("test"),
        String::from("this is a line\nthis is another line"),
    );

    assert_eq!(
        __build_report(
            &src_files,
            Error {
                highlight: Highlight::Point(Offset(8)),
                message: String::from("Message")
            }
        ),
        [
            "test\n",
            "  |\n",
            "1 | this is a line\n",
            "  |         ^\n",
            "Message\n"
        ]
    )
}

#[test]
fn test_build_report2() {
    let mut src_files = SourceFiles::new();

    let mut prefix = String::from("1\n2\n3\n4\n5\n6\n7\n8\n9\n10\nthis is ");
    let suffix = "another line";
    let aim = prefix.len();
    prefix += suffix;

    let content = prefix;

    src_files.new_source_file(String::from("test"), content);

    assert_eq!(
        __build_report(
            &src_files,
            Error {
                highlight: Highlight::Point(Offset(aim as u32)),
                message: String::from("Message")
            }
        ),
        [
            "test\n",
            "   |\n",
            "11 | this is another line\n",
            "   |         ^\n",
            "Message\n"
        ]
    )
}

#[test]
fn highlight_start_len_end() {
    let point = Highlight::Point(Offset(9));
    assert_eq!(point.start(), Offset(9));
    assert_eq!(point.len(), Offset(1));
    assert_eq!(point.end(), Offset(10));
    let span = Highlight::Span(Span {
        start: Offset(4),
        length: Offset(3),
    });
    assert_eq!(span.start(), Offset(4));
    assert_eq!(span.len(), Offset(3));
    assert_eq!(span.end(), Offset(7));
}

#[test]
fn highlight_marks_a_span() {
    let region = Highlight::Span(Span {
        start: Offset(13),
        length: Offset(4),
    });
    assert_eq!(highlight("let this be", Offset(9), region), "    ^^^^");
}

#[test]
fn highlight_stops_at_end_of_line() {
    let region = Highlight::Span(Span {
        start: Offset(3),
        length: Offset(10),
    });
    assert_eq!(highlight("abcde", Offset(0), region), "   ^^");
}

#[test]
fn highlight_of_empty_span_has_no_caret() {
    let region = Highlight::Span(Span {
        start: Offset(2),
        length: Offset(0),
    });
    assert_eq!(highlight("abcde", Offset(0), region), "  ");
}

#[test]
fn highlight_point_past_the_line() {
    assert_eq!(highlight("ab", Offset(0), Highlight::Point(Offset(2))), "  ");
}

#[test]
fn highlight_converts_bytes_to_columns() {
    // 'é' is one column and two bytes: byte 3 is the third character.
    assert_eq!(
        highlight("éa b", Offset(0), Highlight::Point(Offset(3))),
        "  ^"
    );
}

#[test]
fn report_of_span_in_second_file() {
    let mut src_files = SourceFiles::new();
    src_files.new_source_file(String::from("first"), String::from("abc\n"));
    src_files.new_source_file(String::from("second"), String::from("one\ntwo three\n"));
    let report = __build_report(
        &src_files,
        Error {
            highlight: Highlight::Span(Span {
                start: Offset(12),
                length: Offset(5),
            }),
            message: String::from("odd"),
        },
    );
    assert_eq!(
        report,
        [
            "second\n",
            "  |\n",
            "2 | two three\n",
            "  |     ^^^^^\n",
            "odd\n"
        ]
    );
}

#[test]
fn reports_need_a_line_to_show() {
    let mut src_files = SourceFiles::new();
    src_files.new_source_file(String::from("test"), String::from("ab\ncd"));
    assert!(can_build_report(&src_files, &Highlight::Point(Offset(0))));
    assert!(can_build_report(&src_files, &Highlight::Point(Offset(4))));
    // On the newline.
    assert!(!can_build_report(&src_files, &Highlight::Point(Offset(2))));
    // Past the end of the last file.
    assert!(!can_build_report(&src_files, &Highlight::Point(Offset(5))));
    // A span that ends outside the address space.
    assert!(!can_build_report(
        &src_files,
        &Highlight::Span(Span {
            start: Offset(1),
            length: Offset(u32::MAX),
        })
    ));
    assert!(can_build_report(
        &src_files,
        &Highlight::Span(Span {
            start: Offset(1),
            length: Offset(u32::MAX - 1),
        })
    ));
}
