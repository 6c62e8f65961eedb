use lambda_lang::span::{Line, Offset, SourceFile, SourceFiles, Span};

#[test]
fn test_get_by_offset1() {
    let mut src_files = SourceFiles::new();

    let content_one = String::from("some letters");
    src_files.new_source_file(String::from("one"), content_one.clone());
    println!("{:?}", src_files);

    let content_two = String::from("content");
    src_files.new_source_file(String::from("two"), content_two.clone());
    println!("{:?}", src_files);

    let content_three = String::from("other letters");
    src_files.new_source_file(String::from("three"), content_three.clone());
    println!("{:?}", src_files);

    assert_eq!(
        src_files.get_by_offset(Offset(0)).data(),
        content_one.clone()
    );
    assert_eq!(
        src_files.get_by_offset(Offset(1)).data(),
        content_one.clone()
    );
    assert_eq!(
        src_files.get_by_offset(Offset(11)).data(),
        content_one.clone()
    );

    assert_eq!(
        src_files.get_by_offset(Offset(12)).data(),
        content_two.clone()
    );
    assert_eq!(
        src_files.get_by_offset(Offset(14)).data(),
        content_two.clone()
    );
    assert_eq!(
        src_files.get_by_offset(Offset(18)).data(),
        content_two.clone()
    );

    assert_eq!(
        src_files.get_by_offset(Offset(19)).data(),
        content_three.clone()
    );
    assert_eq!(
        src_files.get_by_offset(Offset(24)).data(),
        content_three.clone()
    );
    assert_eq!(
        src_files.get_by_offset(Offset(31)).data(),
        content_three.clone()
    );
}

#[test]
fn test_get_line1() {
    let src_file = SourceFile {
        name: String::from("test"),
        start: Offset(0),
        content: String::from("hello"),
    };
    assert_eq!(
        src_file.get_line(Offset(0)),
        Line {
            offset: Offset(0),
            number: 1,
            content: "hello"
        }
    )
}

#[test]
fn test_get_line2() {
    let src_file = SourceFile {
        name: String::from("test"),
        start: Offset(0),
        content: String::from("hello\n"),
    };
    assert_eq!(
        src_file.get_line(Offset(0)),
        Line {
            offset: Offset(0),
            number: 1,
            content: "hello"
        }
    )
}

#[test]
fn test_get_line3() {
    let src_file = SourceFile {
        name: String::from("test"),
        start: Offset(2),
        content: String::from("hello"),
    };
    assert_eq!(
        src_file.get_line(Offset(4)),
        Line {
            offset: Offset(2),
            number: 1,
            content: "hello"
        }
    )
}

#[test]
fn test_get_line4() {
    let src_file = SourceFile {
        name: String::from("test"),
        start: Offset(5),
        content: String::from("hello\nworld"),
    };
    assert_eq!(
        src_file.get_line(Offset(11)),
        Line {
            offset: Offset(11),
            number: 2,
            content: "world"
        }
    )
}

#[test]
fn test_get_line5() {
    let src_file = SourceFile {
        name: String::from("test"),
        start: Offset(5),
        content: String::from("hello\nworld\nyay"),
    };
    assert_eq!(
        src_file.get_line(Offset(11)),
        Line {
            offset: Offset(11),
            number: 2,
            content: "world"
        }
    )
}

#[test]
fn test_get_line6() {
    let src_file = SourceFile {
        name: String::from("test"),
        start: Offset(5),
        content: String::from("hello\nworld"),
    };
    assert_eq!(
        src_file.get_line(Offset(14)),
        Line {
            offset: Offset(11),
            number: 2,
            content: "world"
        }
    )
}

#[test]
fn offset_arithmetic() {
    let mut offset = Offset(7);
    offset.add_mut(5);
    assert_eq!(offset, Offset(12));
    assert_eq!(offset.add(3), Offset(15));
    assert_eq!(offset.subtract(2), Offset(10));
    assert_eq!(offset.to_usize(), 12usize);
    assert_eq!(offset.to_u32(), 12u32);
    assert!(Offset(3) < Offset(4));
}

#[test]
fn span_end_is_start_plus_length() {
    let span = Span {
        start: Offset(11),
        length: Offset(2),
    };
    assert_eq!(span.end(), Offset(13));
}

#[test]
fn get_line_of_last_character() {
    let src_file = SourceFile {
        name: String::from("test"),
        start: Offset(0),
        content: String::from("ab\ncd"),
    };
    assert_eq!(
        src_file.get_line(Offset(4)),
        Line {
            offset: Offset(3),
            number: 2,
            content: "cd"
        }
    )
}

#[test]
fn get_line_at_newline_selects_following_line() {
    let src_file = SourceFile {
        name: String::from("test"),
        start: Offset(0),
        content: String::from("ab\ncd\nef"),
    };
    assert_eq!(
        src_file.get_line(Offset(2)),
        Line {
            offset: Offset(3),
            number: 2,
            content: "cd"
        }
    )
}

#[test]
fn get_line_counts_bytes_not_characters() {
    // 'é' takes two bytes, so the second line starts at byte 4.
    let src_file = SourceFile {
        name: String::from("test"),
        start: Offset(10),
        content: String::from("é1\nxyz"),
    };
    assert_eq!(src_file.get_start(), Offset(10));
    assert_eq!(
        src_file.get_line(Offset(15)),
        Line {
            offset: Offset(14),
            number: 2,
            content: "xyz"
        }
    );
    assert_eq!(
        src_file.get_line(Offset(11)),
        Line {
            offset: Offset(10),
            number: 1,
            content: "é1"
        }
    );
}

#[test]
fn registry_hands_out_abutting_ranges() {
    let mut src_files = SourceFiles::new();
    assert_eq!(src_files.next_addr(), Offset(0));
    let a = src_files.new_source_file(String::from("a"), String::from("12345"));
    let b = src_files.new_source_file(String::from("b"), String::from(""));
    let c = src_files.new_source_file(String::from("c"), String::from("é"));
    assert_eq!(a, Offset(0));
    assert_eq!(b, Offset(5));
    assert_eq!(c, Offset(5));
    assert_eq!(src_files.next_addr(), Offset(7));
    // The empty file holds no address: offset 5 belongs to the file after it.
    assert_eq!(src_files.get_by_offset(Offset(5)).name, "c");
    assert_eq!(src_files.get_by_offset(Offset(6)).name, "c");
    assert_eq!(src_files.get_by_offset(Offset(4)).name, "a");
}

#[test]
fn get_by_name_returns_first_match() {
    let mut src_files = SourceFiles::new();
    src_files.new_source_file(String::from("one"), String::from("first"));
    src_files.new_source_file(String::from("two"), String::from("second"));
    src_files.new_source_file(String::from("one"), String::from("third"));
    assert_eq!(src_files.get_by_name("one").data(), "first");
    assert_eq!(src_files.get_by_name("two").data(), "second");
    assert_eq!(src_files.get_by_name("two").get_start(), Offset(5));
}

#[test]
fn files_that_fit_the_address_space() {
    let small = SourceFile {
        name: String::from("small"),
        start: Offset(u32::MAX - 4),
        content: String::from("abc"),
    };
    assert!(small.fits());
    let large = SourceFile {
        name: String::from("large"),
        start: Offset(u32::MAX - 4),
        content: String::from("abcd"),
    };
    assert!(!large.fits());
}

#[test]
fn character_at_or_after_an_address() {
    let file = SourceFile {
        name: String::from("test"),
        start: Offset(10),
        content: String::from("aé\nz"),
    };
    assert_eq!(file.char_from(Offset(9)), None);
    assert_eq!(file.char_from(Offset(10)), Some('a'));
    assert_eq!(file.char_from(Offset(11)), Some('é'));
    // Inside the two bytes of 'é': the next character.
    assert_eq!(file.char_from(Offset(12)), Some('\n'));
    assert_eq!(file.char_from(Offset(13)), Some('\n'));
    assert_eq!(file.char_from(Offset(14)), Some('z'));
    assert_eq!(file.char_from(Offset(15)), None);
}

#[test]
fn registry_knows_its_names() {
    let mut src_files = SourceFiles::new();
    assert!(!src_files.contains_name("one"));
    src_files.new_source_file(String::from("one"), String::from("first"));
    assert!(src_files.contains_name("one"));
    assert!(!src_files.contains_name("on"));
    assert!(!src_files.contains_name("ones"));
}
