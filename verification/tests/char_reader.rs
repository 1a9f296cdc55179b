//! Exercises the byte-stream decoder and its lookahead protocol.

use confparser::char_reader::CharReader;
use confparser::char_reader::Error;

#[test]
fn test_char_reader() {
    let source = "\n        \u{6628}\u{65e5}\u{3001}\u{30ab}\u{30d5}\u{30a7}\u{3067}\n        \u{30b3}\u{30fc}\u{30d2}\u{30fc}\u{3092}\u{98f2}\u{307f}\u{306a}\u{304c}\u{3089}\n        \u{6f22}\u{5b57}\u{306e}\u{52c9}\u{5f37}\u{3092}\u{3057}\u{3066}\u{3044}\u{305f}\u{3089}\u{3001}\n        Friend\u{304c}\u{1fae0}\u{306e}\u{7d75}\u{6587}\u{5b57}\u{3092}\n        \u{9001}\u{3063}\u{3066}\u{304d}\u{3066}\u{7b11}\u{3063}\u{305f}\u{3002}\n        ";

    let mut char_reader = CharReader::new(source.as_bytes().to_vec());
    let mut current_pos = 0;
    let mut current_line = 1;
    let mut prev_return = false;

    for want in source.chars().take(8) {
        let got = char_reader.peek();
        assert!(got.is_ok());
        let (ch, line, pos) = got.unwrap();

        if prev_return {
            current_pos = 1;
            current_line += 1;
        } else {
            current_pos += 1;
        }
        prev_return = want == '\n';
        assert_eq!(want, ch);
        assert_eq!(current_line, line);
        assert_eq!(current_pos, pos);
    }

    for _ in 0..8 {
        char_reader.peek_back().unwrap();
    }
    current_pos = 0;
    current_line = 1;
    let mut prev_return = false;

    for want in source.chars().take(10) {
        let got = char_reader.peek();
        assert!(got.is_ok());
        let (ch, line, pos) = got.unwrap();
        if prev_return {
            current_pos = 1;
            current_line += 1;
        } else {
            current_pos += 1;
        }
        prev_return = want == '\n';
        assert_eq!(want, ch);
        assert_eq!(current_line, line);
        assert_eq!(current_pos, pos);
    }

    current_pos = 0;
    current_line = 1;
    let mut prev_return = false;

    for want in source.chars() {
        let got = char_reader.read();
        assert!(got.is_ok());
        let (ch, line, pos) = got.unwrap();
        if prev_return {
            current_pos = 1;
            current_line += 1;
        } else {
            current_pos += 1;
        }
        prev_return = want == '\n';
        assert_eq!(want, ch);
        assert_eq!(current_line, line);
        assert_eq!(current_pos, pos);
    }

    let e = char_reader.read();
    assert!(e.is_err());
    assert_eq!(e.unwrap_err(), Error::EOF(current_line, current_pos));
}

#[test]
fn test_tweet() {
    let data: [u8; 38] = [
        0b01001000, 0b01100001, 0b01110000, 0b01110000, 0b01111001, 0b00100000, 0b01010000,
        0b01110010, 0b01101111, 0b01100111, 0b01110010, 0b01100001, 0b01101101, 0b01101101,
        0b01100101, 0b01110010, 0b00100111, 0b01110011, 0b00100000, 0b01000100, 0b01100001,
        0b01111001, 0b00100000, 0b01100110, 0b01110010, 0b01101111, 0b01101101, 0b00100000,
        0b01001010, 0b01100101, 0b01110100, 0b01000010, 0b01110010, 0b01100001, 0b01101001,
        0b01101110, 0b01110011, 0b00100001,
    ];

    let mut char_reader = CharReader::new(data.to_vec());
    let mut buf = vec![];

    loop {
        match char_reader.read() {
            Err(Error::EOF(_, _)) => break,
            Err(e) => panic!("{:?}", e),
            Ok((c, _, _)) => buf.push(c),
        }
    }

    assert_eq!(
        buf.into_iter().collect::<String>(),
        "Happy Programmer's Day from JetBrains!"
    )
}

#[test]
fn test_peek_and_read() {
    let source = "abcdef";
    let mut char_reader = CharReader::new(source.as_bytes().to_vec());

    let result = char_reader.peek();
    assert!(result.is_ok());
    let result = result.unwrap();
    assert_eq!(result.0, 'a');
    assert_eq!(result.1, 1);
    assert_eq!(result.2, 1);

    let result = char_reader.peek_back();
    assert!(result.is_ok());

    let result = char_reader.peek_back();
    assert!(result.is_err());
    assert_eq!(result.unwrap_err(), Error::PeekBackError);

    let result = char_reader.peek();
    assert!(result.is_ok());
    let result = result.unwrap();
    assert_eq!(result.0, 'a');
    assert_eq!(result.1, 1);
    assert_eq!(result.2, 1);

    let result = char_reader.peek();
    assert!(result.is_ok());
    let result = result.unwrap();
    assert_eq!(result.0, 'b');
    assert_eq!(result.1, 1);
    assert_eq!(result.2, 2);

    let result = char_reader.peek();
    assert!(result.is_ok());
    assert_eq!(result.unwrap().0, 'c');

    let result = char_reader.read();
    assert!(result.is_ok());
    assert_eq!(result.unwrap().0, 'a');

    let result = char_reader.read();
    assert!(result.is_ok());
    assert_eq!(result.unwrap().0, 'b');

    let result = char_reader.read();
    assert!(result.is_ok());
    assert_eq!(result.unwrap().0, 'c');

    let result = char_reader.read();
    assert!(result.is_ok());
    assert_eq!(result.unwrap().0, 'd');

    let result = char_reader.peek_back();
    assert!(result.is_err());
    assert_eq!(result.unwrap_err(), Error::PeekBackError);

    let result = char_reader.peek();
    assert!(result.is_ok());
    assert_eq!(result.unwrap().0, 'e');

    let result = char_reader.peek_back();
    assert!(result.is_ok());

    let result = char_reader.read();
    assert!(result.is_ok());
    assert_eq!(result.unwrap().0, 'e');

    let result = char_reader.peek();
    assert!(result.is_ok());
    assert_eq!(result.unwrap().0, 'f');

    let result = char_reader.consume(1);
    assert!(result.is_ok());
    assert_eq!(result.unwrap(), "f".to_string());

    let result = char_reader.consume(1);
    assert!(result.is_err());
    assert_eq!(result.unwrap_err(), Error::ConsumeError);
}

#[test]
fn test_invalid_utf8() {
    let source = &[0b11110000, 0b11110000];
    let mut char_reader = CharReader::new(source.to_vec());

    let result = char_reader.read();
    assert!(result.is_err());
    assert_eq!(result.unwrap_err(), Error::InvalidUTF8(0b11110000, 1, 0));

    let source = &[0b1111_0111, 0b1011_1111, 0b1011_1111, 0b1011_1111];
    let mut char_reader = CharReader::new(source.to_vec());

    let expected = ((0b1111_0111 as u32) & 0b0000_0111) << 18
        | ((0b1011_1111 as u32) & 0b0011_1111) << 12
        | ((0b1011_1111 as u32) & 0b0011_1111) << 6
        | (0b1011_1111 as u32) & 0b0011_1111;

    let result = char_reader.read();
    assert!(result.is_err());
    assert_eq!(result.unwrap_err(), Error::InvalidCodepoint(expected, 1, 1));
}

#[test]
fn decoding_round_trip() {
    let source = "key = value\n\u{6f22}\u{5b57} \u{1fae0} ascii";
    let mut reader = CharReader::new(source.as_bytes().to_vec());
    let mut decoded = String::new();
    loop {
        match reader.read() {
            Ok((c, _, _)) => decoded.push(c),
            Err(Error::EOF(_, _)) => break,
            Err(e) => panic!("{:?}", e),
        }
    }
    assert_eq!(decoded.as_bytes(), source.as_bytes());
    assert_eq!(decoded, source);
}

#[test]
fn column_resets_after_newline() {
    let mut reader = CharReader::new(b"ab\ncd".to_vec());
    assert_eq!(reader.read().unwrap(), ('a', 1, 1));
    assert_eq!(reader.read().unwrap(), ('b', 1, 2));
    assert_eq!(reader.read().unwrap(), ('\n', 1, 3));
    assert_eq!(reader.read().unwrap(), ('c', 2, 1));
    assert_eq!(reader.read().unwrap(), ('d', 2, 2));
    assert_eq!(reader.read().unwrap_err(), Error::EOF(2, 2));
    assert_eq!(reader.read().unwrap_err(), Error::EOF(2, 2));
}

#[test]
fn peek_sees_what_read_returns() {
    let source = "pe\u{3042}k = value";
    let mut reader = CharReader::new(source.as_bytes().to_vec());
    let mut peeked = vec![];
    while let Ok(item) = reader.peek() {
        peeked.push(item);
    }
    for _ in 0..peeked.len() {
        reader.peek_back().unwrap();
    }
    let mut peeked_again = vec![];
    while let Ok(item) = reader.peek() {
        peeked_again.push(item);
    }
    assert_eq!(peeked, peeked_again);
    let mut read_back = vec![];
    while let Ok(item) = reader.read() {
        read_back.push(item);
    }
    assert_eq!(peeked, read_back);
}

#[test]
fn truncated_sequence_with_no_continuation_is_eof() {
    let mut reader = CharReader::new(vec![0xc3]);
    assert_eq!(reader.read().unwrap_err(), Error::EOF(1, 0));
}

#[test]
fn consume_concatenates_peeked_characters() {
    let mut reader = CharReader::new(b"abc".to_vec());
    reader.peek().unwrap();
    reader.peek().unwrap();
    let got = reader.consume(2).unwrap();
    assert_eq!(got, "ab".to_string());
    assert_eq!(reader.read().unwrap().0, 'c');
}
