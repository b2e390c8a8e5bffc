use cctar::error::TarError;
use cctar::load_archive;
use cctar::tar::header::encode_header;
use cctar::tar::models::{TarArchive, TarFile};
use cctar::tar::octal::{parse_octal, push_octal};
use cctar::tar::write::{split_path, FileKind, FileMetadata};
use cctar::tar::{read_utf8_octal_value, read_utf8_string_value};
use cctar::utils::arg_parser::{Action, Arguments};

fn regular(name: &str, mode: u32, body: &[u8]) -> TarFile {
    let meta = FileMetadata {
        path: name.to_string(),
        mode,
        uid: 0,
        gid: 0,
        size: body.len() as u64,
        mtime: 0,
        kind: FileKind::Regular,
        link_target: String::new(),
        owner_name: String::new(),
        group_name: String::new(),
    };
    TarFile::from_metadata(&meta, body.to_vec()).unwrap()
}

fn stream(parts: &[(&str, &[u8])], extra_byte: bool) -> Vec<u8> {
    let mut data = Vec::new();
    for (name, body) in parts {
        data.extend(encode_header(&regular(name, 0o600, body)).unwrap());
        data.extend_from_slice(body);
        let stored = (body.len() + 511) / 512 * 512;
        data.extend(vec![0u8; stored - body.len()]);
        if extra_byte {
            data.push(b'\n');
        }
    }
    data.extend([0u8; 512]);
    data
}

#[test]
fn archive_of_one_empty_file() {
    let entry = regular("a.txt", 0o644, b"");
    let bytes = TarArchive::write_archive(&vec![entry]).unwrap();
    assert_eq!(bytes.len(), 10240);
    assert_eq!(&bytes[0..5], b"a.txt");
    assert_eq!(bytes[156], b'0');
    assert_eq!(&bytes[100..107], b"0000644");
    assert_eq!(&bytes[124..135], b"00000000000");
    assert_eq!(&bytes[148..156], b"006654\0 ");
    assert!(bytes[512..1024].iter().all(|&b| b == 0));
    assert!(bytes[1024..].iter().all(|&b| b == 0));
    assert_eq!(bytes[1024..].len(), 18 * 512);
}

#[test]
fn reading_the_archive_of_one_empty_file() {
    let bytes = TarArchive::write_archive(&vec![regular("a.txt", 0o644, b"")]).unwrap();
    let archive = TarArchive::from_reader(&bytes, false).unwrap();
    assert_eq!(archive.files.len(), 1);
    assert_eq!(archive.files[0].file_name, "a.txt");
    assert_eq!(archive.files[0].body.len(), 0);
    assert_eq!(archive.files[0].file_mode, 0o644);
    assert_eq!(archive.files[0].file_size, 0);
    assert_eq!(archive.files[0].link_indicator, "0");
}

#[test]
fn archive_without_entries_is_twenty_blocks() {
    let bytes = TarArchive::write_archive(&Vec::new()).unwrap();
    assert_eq!(bytes, vec![0u8; 10240]);
    let archive = TarArchive::from_reader(&bytes, false).unwrap();
    assert!(archive.files.is_empty());
}

#[test]
fn end_padding_by_the_size_of_the_entries() {
    let sizes = [(8704usize, 19usize, 20usize), (9216, 20, 22), (9217, 20, 22), (20000, 41, 43)];
    for (body, blocks, total) in sizes {
        let entry = regular("big", 0o644, &vec![9u8; body]);
        let bytes = TarArchive::write_archive(&vec![entry]).unwrap();
        assert_eq!(bytes.len(), total * 512);
        assert!(bytes[blocks * 512..].iter().all(|&b| b == 0));
    }
}

#[test]
fn one_entry_and_a_block_of_nul_bytes() {
    let data = stream(&[("only", b"hello")], false);
    assert_eq!(data.len(), 3 * 512);
    let archive = TarArchive::from_reader(&data, false).unwrap();
    assert_eq!(archive.files.len(), 1);
    assert_eq!(archive.files[0].file_name, "only");
    assert_eq!(archive.files[0].body, b"hello");
    assert_eq!(archive.files[0].file_mode, 0o600);
}

#[test]
fn entries_come_in_the_order_of_the_stream() {
    let big = vec![5u8; 1024];
    let data = stream(&[("one", b"1"), ("two", &big), ("three", b""), ("four", b"4444")], false);
    let archive = TarArchive::from_reader(&data, false).unwrap();
    let names: Vec<&str> = archive.files.iter().map(|f| f.file_name.as_str()).collect();
    assert_eq!(names, vec!["one", "two", "three", "four"]);
    assert_eq!(archive.files[1].body, big);
    assert_eq!(archive.files[2].body, b"");
    assert_eq!(archive.files[3].body, b"4444");
}

#[test]
fn what_follows_the_terminator_is_not_read() {
    let mut data = stream(&[("kept", b"k")], false);
    data.extend(stream(&[("lost", b"l")], false));
    let archive = TarArchive::from_reader(&data, false).unwrap();
    assert_eq!(archive.files.len(), 1);
    assert_eq!(archive.files[0].file_name, "kept");
}

#[test]
fn written_archive_is_read_back_up_to_a_body_that_ends_on_a_block() {
    let first = regular("first", 0o644, &[1u8; 700]);
    let second = regular("second", 0o644, &[2u8; 512]);
    let third = regular("third", 0o644, &[3u8; 3]);
    let bytes = TarArchive::write_archive(&vec![first, second, third]).unwrap();
    let archive = TarArchive::from_reader(&bytes, false).unwrap();
    assert_eq!(archive.files.len(), 2);
    assert_eq!(archive.files[0].body, vec![1u8; 700]);
    assert_eq!(archive.files[1].body, vec![2u8; 512]);
}

#[test]
fn from_standard_input_one_byte_follows_each_body() {
    let data = stream(&[("one", b"1"), ("two", b"22")], true);
    let archive = TarArchive::from_reader(&data, true).unwrap();
    assert_eq!(archive.files.len(), 2);
    assert_eq!(archive.files[1].file_name, "two");
    assert_eq!(archive.files[1].body, b"22");
    let loaded = load_archive(None, &data).unwrap();
    assert_eq!(loaded, archive);
    let mut cut = stream(&[("one", b"1")], false);
    cut.truncate(1024);
    assert_eq!(TarArchive::from_reader(&cut, true), Err(TarError::MalformedHeader));
    for byte in [0u8, b' ', 0x7f, 0x80, 0xff] {
        let mut any = cut.clone();
        any.push(byte);
        any.extend([0u8; 512]);
        let read = TarArchive::from_reader(&any, true).unwrap();
        assert_eq!(read.files.len(), 1);
        assert_eq!(read.files[0].file_name, "one");
        assert_eq!(read.files[0].body, b"1");
    }
}

#[test]
fn load_archive_from_a_named_file() {
    let data = stream(&[("one", b"1"), ("two", b"22")], false);
    let loaded = load_archive(Some("x.tar".to_string()), &data).unwrap();
    assert_eq!(loaded, TarArchive::from_reader(&data, false).unwrap());
    assert_eq!(loaded.files.len(), 2);
}

#[test]
fn read_fails_without_a_terminator() {
    assert_eq!(TarArchive::from_reader(&[], false), Err(TarError::MalformedHeader));
    assert_eq!(TarArchive::from_reader(&[0u8; 511], false), Err(TarError::MalformedHeader));
    let mut data = stream(&[("one", b"1")], false);
    data.truncate(1024);
    assert_eq!(TarArchive::from_reader(&data, false), Err(TarError::MalformedHeader));
}

#[test]
fn read_fails_on_a_short_body() {
    let mut data = stream(&[("one", &[1u8; 600])], false);
    data.truncate(512 + 1023);
    assert_eq!(TarArchive::from_reader(&data, false), Err(TarError::TruncatedBody));
    assert_eq!(TarArchive::read_body(&data, 512, 600), Err(TarError::TruncatedBody));
    assert_eq!(TarArchive::read_body(&data, 512, u128::MAX), Err(TarError::TruncatedBody));
    assert_eq!(TarArchive::read_body(&data, 512, 512), Ok((vec![1u8; 512], 1024)));
    assert_eq!(TarArchive::read_body(&data, 512, 3), Ok((vec![1u8; 3], 1024)));
    assert_eq!(TarArchive::read_body(&data, 512, 0), Ok((Vec::new(), 512)));
    assert_eq!(TarArchive::read_body(&data, 4000, 0), Err(TarError::TruncatedBody));
}

#[test]
fn read_fails_on_a_malformed_header() {
    let mut data = stream(&[("one", b"1"), ("two", b"2")], false);
    data[1024 + 100] = b'9';
    assert_eq!(TarArchive::from_reader(&data, false), Err(TarError::MalformedHeader));
}

#[test]
fn path_of_130_bytes_is_split() {
    let path = format!("{}{}", "p".repeat(30), "n".repeat(100));
    let (prefix, name) = split_path(&path).unwrap();
    assert_eq!(prefix, "p".repeat(30));
    assert_eq!(name, "n".repeat(100));
    assert_eq!(name.len(), 100);
}

#[test]
fn path_of_50_bytes_is_the_name() {
    let path = "q".repeat(50);
    let (prefix, name) = split_path(&path).unwrap();
    assert_eq!(prefix, "");
    assert_eq!(name, path);
    let exact = "r".repeat(100);
    assert_eq!(split_path(&exact), Ok((String::new(), exact.clone())));
    assert_eq!(split_path(""), Ok((String::new(), String::new())));
}

#[test]
fn path_is_not_cut_inside_a_character() {
    let path = format!("{}\u{e9}{}", "a".repeat(50), "b".repeat(99));
    assert_eq!(path.len(), 151);
    assert_eq!(split_path(&path), Err(TarError::UnsplittablePath));
    let fine = format!("{}\u{e9}{}", "a".repeat(50), "b".repeat(98));
    let (prefix, name) = split_path(&fine).unwrap();
    assert_eq!(prefix, "a".repeat(50));
    assert_eq!(name, format!("\u{e9}{}", "b".repeat(98)));
}

#[test]
fn long_path_goes_to_prefix_and_name() {
    let path = format!("{}/{}", "d".repeat(40), "f".repeat(99));
    let entry = regular(&path, 0o644, b"");
    assert_eq!(entry.prefix, "d".repeat(40));
    assert_eq!(entry.file_name, format!("/{}", "f".repeat(99)));
    let block = encode_header(&entry).unwrap();
    assert_eq!(&block[345..385], "d".repeat(40).as_bytes());
}

#[test]
fn octal_text_of_numbers() {
    let mut out = vec![b'x'];
    push_octal(&mut out, 0o644, 7);
    assert_eq!(out, b"x0000644");
    let mut out = Vec::new();
    push_octal(&mut out, 4598, 6);
    assert_eq!(out, b"010766");
    let mut out = Vec::new();
    push_octal(&mut out, 0o1234, 2);
    assert_eq!(out, b"34");
    let mut out = Vec::new();
    push_octal(&mut out, 5, 0);
    assert_eq!(out, b"");
}

#[test]
fn numbers_of_octal_text() {
    assert_eq!(parse_octal(b"644"), Some(420));
    assert_eq!(parse_octal(b"0000644"), Some(0o644));
    assert_eq!(parse_octal(b"0"), Some(0));
    assert_eq!(parse_octal(b""), None);
    assert_eq!(parse_octal(b"8"), None);
    assert_eq!(parse_octal(b"12 "), None);
    assert_eq!(parse_octal(b"+7"), None);
    let max = format!("{:o}", u128::MAX);
    assert_eq!(parse_octal(max.as_bytes()), Some(u128::MAX));
    let beyond = format!("{}0", max);
    assert_eq!(parse_octal(beyond.as_bytes()), None);
    assert_eq!(parse_octal(b"4000000000000000000000000000000000000000000"), None);
}

#[test]
fn fields_are_read_at_their_place() {
    let buffer = b"xxabc\0def0000644\0000755 \0";
    assert_eq!(read_utf8_string_value(buffer, 2, 7), Ok("abc".to_string()));
    assert_eq!(read_utf8_string_value(buffer, 2, 3), Ok("abc".to_string()));
    assert_eq!(read_utf8_string_value(buffer, 5, 4), Ok(String::new()));
    assert_eq!(read_utf8_octal_value(buffer, 9, 8), Ok(0o644));
    assert_eq!(read_utf8_octal_value(buffer, 17, 8), Ok(0o755));
    assert_eq!(read_utf8_octal_value(buffer, 9, 4), Ok(0));
    assert_eq!(read_utf8_octal_value(buffer, 2, 3), Err(TarError::MalformedHeader));
    assert_eq!(read_utf8_octal_value(buffer, 5, 4), Err(TarError::MalformedHeader));
    assert_eq!(read_utf8_string_value(buffer, 20, 6), Err(TarError::MalformedHeader));
    assert_eq!(read_utf8_string_value(buffer, 26, 0), Err(TarError::MalformedHeader));
    assert_eq!(read_utf8_string_value(buffer, 25, 0), Ok(String::new()));
    assert_eq!(read_utf8_string_value(&[0xc3, 0xa9, 0], 0, 3), Ok("\u{e9}".to_string()));
    assert_eq!(read_utf8_string_value(&[0xc3, 0, 0], 0, 3), Err(TarError::MalformedHeader));
    assert_eq!(read_utf8_string_value(&[0x41, 0, 0xff], 0, 3), Ok("A".to_string()));
}

#[test]
fn what_the_arguments_ask_for() {
    let mut args = Arguments {
        list: false,
        file: None,
        extract: false,
        create: false,
        input_files: Vec::new(),
    };
    assert_eq!(args.action(), Action::Nothing);
    args.create = true;
    assert_eq!(args.action(), Action::Nothing);
    args.file = Some("out.tar".to_string());
    assert_eq!(args.action(), Action::Create);
    args.extract = true;
    assert_eq!(args.action(), Action::Extract);
    args.list = true;
    assert_eq!(args.action(), Action::List);
}

#[test]
fn every_error_has_a_message() {
    let errors = [
        TarError::MalformedHeader,
        TarError::TruncatedBody,
        TarError::UnsupportedEntryType,
        TarError::UnsplittablePath,
        TarError::FieldOverflow,
    ];
    for e in errors {
        assert!(!e.message().is_empty());
    }
    assert_eq!(TarError::UnsupportedEntryType.message(), "Type flag is not supported!");
}

#[test]
fn arguments_from_what_was_given() {
    let args = Arguments::from_matches(None, None, None, None, None);
    assert_eq!(
        args,
        Arguments {
            list: false,
            file: None,
            extract: false,
            create: false,
            input_files: Vec::new(),
        }
    );
    let args = Arguments::from_matches(
        Some(false),
        Some("a.tar".to_string()),
        Some(false),
        Some(true),
        Some(vec!["x".to_string(), "y".to_string()]),
    );
    assert!(!args.list && !args.extract && args.create);
    assert_eq!(args.file, Some("a.tar".to_string()));
    assert_eq!(args.input_files, vec!["x".to_string(), "y".to_string()]);
    let args = Arguments::from_matches(Some(true), None, Some(true), None, None);
    assert!(args.list && args.extract && !args.create);
}

#[test]
fn a_name_with_a_space_comes_back_from_the_archive() {
    let entry = regular("a b.txt", 0o644, b"text");
    let bytes = TarArchive::write_archive(&vec![entry]).unwrap();
    let archive = TarArchive::from_reader(&bytes, false).unwrap();
    assert_eq!(archive.files.len(), 1);
    assert_eq!(archive.files[0].file_name, "a b.txt");
    assert_eq!(archive.files[0].body, b"text");
}

#[test]
fn an_archived_file_comes_back_with_its_metadata() {
    let path = format!("{}/{}", "some dir".repeat(4), "file name ".repeat(10));
    assert_eq!(path.len(), 133);
    let meta = FileMetadata {
        path: path.clone(),
        mode: 0o640,
        uid: 0o7777777,
        gid: 0o1750,
        size: 700,
        mtime: 0o77777777777,
        kind: FileKind::Regular,
        link_target: "not kept".to_string(),
        owner_name: "alice b".to_string(),
        group_name: "staff of 12".to_string(),
    };
    let entry = TarFile::from_metadata(&meta, vec![8u8; 700]).unwrap();
    let bytes = TarArchive::write_archive(&vec![entry]).unwrap();
    let archive = TarArchive::from_reader(&bytes, false).unwrap();
    assert_eq!(archive.files.len(), 1);
    let f = &archive.files[0];
    assert_eq!(format!("{}{}", f.prefix, f.file_name), path);
    assert_eq!(f.file_name.len(), 100);
    assert_eq!(f.file_mode, 0o640);
    assert_eq!(f.owner_uid, 0o7777777);
    assert_eq!(f.group_uid, 0o1750);
    assert_eq!(f.file_size, 700);
    assert_eq!(f.last_mod_time, 0o77777777777);
    assert_eq!(f.link_indicator, "0");
    assert_eq!(f.linked_file_nbame, "");
    assert_eq!(f.ustar, "ustar ");
    assert_eq!(f.ustar_version, " ");
    assert_eq!(f.owner_name, "alice b");
    assert_eq!(f.group_name, "staff of 12");
    assert_eq!(f.body, vec![8u8; 700]);
}
