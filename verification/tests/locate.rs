use lib::locate::{bigram_header, LocateEncoder};

#[test]
fn header_is_padded() {
    let h = bigram_header(b"abcd");
    assert_eq!(h.len(), 256);
    assert_eq!(&h[..4], b"abcd");
    assert!(h[4..].iter().all(|&b| b == 0));
    let long = vec![b'x'; 300];
    assert_eq!(bigram_header(&long), vec![b'x'; 256]);
}

#[test]
fn encodes_a_short_list() {
    let mut e = LocateEncoder::new(b"abcd");
    assert_eq!(e.encode_line(b"/abc\n"), vec![14, b'/', b'a', b'b', b'c']);
    assert_eq!(e.encode_line(b"/abd\n"), vec![17, b'd']);
    assert_eq!(e.encode_line(b"ab\n"), vec![11, 128]);
    assert_eq!(e.encode_line(b"cd"), vec![14, 128]);
}

#[test]
fn wide_differences_use_a_word() {
    let mut e = LocateEncoder::new(b"abcd");
    let mut l1 = vec![b'p'; 25];
    l1.extend_from_slice(b"1\n");
    let mut l2 = vec![b'p'; 25];
    l2.extend_from_slice(b"2\n");
    let first = e.encode_line(&l1);
    assert_eq!(first[0], 14);
    assert_eq!(e.encode_line(&l2), vec![30, 39, 0, b'2']);
    assert_eq!(e.encode_line(b"q\n"), vec![30, 245, 255, b'q']);
}

#[test]
fn empty_lines_write_nothing() {
    let mut e = LocateEncoder::new(b"");
    assert_eq!(e.encode_line(b"a\n"), vec![14, b'a']);
    assert_eq!(e.encode_line(b"\n"), Vec::<u8>::new());
    assert_eq!(e.encode_line(b"ab\n"), vec![14, b'a', b'b']);
}

#[test]
fn first_line_is_compared_with_spaces() {
    let mut e = LocateEncoder::new(b"");
    assert_eq!(e.encode_line(b"  x\n"), vec![16, b'x']);
}

#[test]
fn unprintable_bytes_are_escaped() {
    let mut e = LocateEncoder::new(b"");
    assert_eq!(e.encode_line("é\n".as_bytes()), vec![14, 31, 0xC3, 31, 0xA9]);
    assert_eq!(e.encode_line(b"\tz\n"), vec![14, 31, 9, b'z']);
}

#[test]
fn bigram_line_stops_at_zero() {
    let mut e = LocateEncoder::new(b"ab\0cd");
    assert_eq!(e.encode_line(b"cdab\n"), vec![14, b'c', b'd', 128]);
}

#[test]
fn long_lines_are_cut() {
    let mut e = LocateEncoder::new(b"");
    let line = vec![b'k'; 1500];
    let out = e.encode_line(&line);
    assert_eq!(out.len(), 1 + 1023);
    let out2 = e.encode_line(&line);
    assert_eq!(out2, vec![30, 13, 4]);
}

fn decoded_diff(out: &[u8]) -> i64 {
    if out[0] == 30 {
        i16::from_le_bytes([out[1], out[2]]) as i64
    } else {
        out[0] as i64
    }
}

#[test]
fn prefix_length_recovered() {
    let lines: [&[u8]; 5] = [b"/usr/bin/cc\n", b"/usr/bin/cpp\n", b"/usr/lib/libc.a\n", b"/var\n", b"/var/log/messages/x/y/z/w\n"];
    let prefixes = [0i64, 10, 5, 1, 4];
    let mut e = LocateEncoder::new(b"usbilr");
    let mut count = 0i64;
    for (line, expect) in lines.iter().zip(prefixes.iter()) {
        let out = e.encode_line(line);
        count = count + decoded_diff(&out) - 14;
        assert_eq!(count, *expect);
    }
}

#[test]
fn last_listing_of_a_pair_counts() {
    let mut e = LocateEncoder::new(b"xxabcdab");
    assert_eq!(e.encode_line(b"ab\n"), vec![14, 129]);
    let mut e = LocateEncoder::new(b"xxabcdab");
    assert_eq!(e.encode_line(b"xx\n"), vec![14, 128]);
    let mut e = LocateEncoder::new(b"xxabcdab");
    assert_eq!(e.encode_line(b"cd\n"), vec![14, 129]);
}

#[test]
fn pairs_read_from_the_bigram_line() {
    assert_eq!(lib::locate::bigram_pairs(b"abcd"), 2);
    assert_eq!(lib::locate::bigram_pairs(b"abc"), 1);
    assert_eq!(lib::locate::bigram_pairs(b"ab\0cd"), 1);
    assert_eq!(lib::locate::bigram_pairs(b""), 0);
}
