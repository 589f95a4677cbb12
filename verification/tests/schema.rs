use joy::noun::Noun;
use joy::reader::{Clock, Reader};
use joy::schema::{
    height_of, make_empty, pow2_u64, write_atom, write_bytes, write_record, write_seq, write_tree, BYT1, SEQ1,
};

fn atom(v: u64) -> Noun {
    Noun::Atom(v)
}

fn pair(a: Noun, b: Noun) -> Noun {
    Noun::Pair(Box::new(a), Box::new(b))
}

fn reader() -> Reader {
    Reader { remaining: 1_000_000, sequence_limit: 65_536, clock: None }
}

#[test]
fn tree_heights_cover_counts() {
    assert_eq!(height_of(0), 0);
    assert_eq!(height_of(1), 0);
    assert_eq!(height_of(2), 1);
    assert_eq!(height_of(3), 2);
    assert_eq!(height_of(4), 2);
    assert_eq!(height_of(5), 3);
    assert_eq!(height_of(65), 7);
    assert_eq!(height_of(4294967296), 32);
    assert_eq!(pow2_u64(10), 1024);
}

#[test]
fn empty_trees_pair_zero_with_itself() {
    assert_eq!(make_empty(0), atom(0));
    assert_eq!(make_empty(2), pair(pair(atom(0), atom(0)), pair(atom(0), atom(0))));
}

#[test]
fn trees_fill_left_leaves_and_pad_the_rest() {
    let t = write_tree(vec![atom(1), atom(2), atom(3)]);
    assert_eq!(t, pair(pair(atom(1), atom(2)), pair(atom(3), atom(0))));
    assert_eq!(write_tree(vec![atom(9)]), atom(9));
    assert_eq!(write_tree(vec![]), atom(0));
}

#[test]
fn records_end_in_zero() {
    let r = write_record(0x4d4f4431, vec![atom(1), atom(2)]).unwrap();
    assert_eq!(r, pair(atom(0x4d4f4431), pair(atom(1), pair(atom(2), atom(0)))));
    assert_eq!(write_record(0xffff_ffff_0000_0001, vec![]).unwrap_err(), "noncanonical package field");
    assert_eq!(write_atom(0xffff_ffff_0000_0000).unwrap(), atom(0xffff_ffff_0000_0000));
    assert_eq!(write_atom(0xffff_ffff_0000_0001).unwrap_err(), "noncanonical package field");
}

#[test]
fn byte_strings_pack_little_endian_words() {
    let b = write_bytes(b"abcde").unwrap();
    let words = pair(atom(0x64636261), atom(0x65));
    assert_eq!(b, pair(atom(BYT1), pair(atom(5), words)));
    let empty = write_bytes(b"").unwrap();
    assert_eq!(empty, pair(atom(BYT1), pair(atom(0), atom(0))));
}

#[test]
fn written_bytes_read_back() {
    for text in [&b""[..], b"a", b"abcd", b"abcde", b"raw\0\r\n\xfe", b"0123456789abcdefghij"] {
        let n = write_bytes(text).unwrap();
        let mut r = reader();
        assert_eq!(r.bytes(&n, 1000).unwrap(), text.to_vec());
    }
}

#[test]
fn written_sequences_read_back() {
    let values: Vec<Noun> = (0..37).map(atom).collect();
    let expected: Vec<Noun> = (0..37).map(atom).collect();
    let n = write_seq(values).unwrap();
    let mut r = reader();
    let got = r.list(&n, 100).unwrap();
    assert_eq!(got.len(), 37);
    for (g, e) in got.iter().zip(expected.iter()) {
        assert_eq!(*g, e);
    }
}

#[test]
fn written_records_read_back() {
    let n = write_record(0x4a4f4231, vec![atom(4), atom(5), atom(6)]).unwrap();
    let mut r = reader();
    let fields = r.record(&n, 0x4a4f4231, 3).unwrap();
    assert_eq!(fields.len(), 3);
    assert_eq!(*fields[0], atom(4));
    assert_eq!(*fields[2], atom(6));
    assert_eq!(r.remaining, 1_000_000 - 4 - 6);
}

#[test]
fn strings_read_back_as_utf8() {
    let n = write_bytes("ошибка".as_bytes()).unwrap();
    let mut r = reader();
    assert_eq!(r.string(&n, 255).unwrap(), "ошибка");
    let bad = write_bytes(b"\xff").unwrap();
    let mut r = reader();
    assert_eq!(r.string(&bad, 255).unwrap_err(), "invalid UTF-8 string");
}

#[test]
fn record_errors_name_the_fault() {
    let n = write_record(0x4a4f4231, vec![atom(1)]).unwrap();
    let mut r = reader();
    assert_eq!(r.record(&n, 0x41525431, 1).unwrap_err(), "record tag: expected 0x41525431");
    let mut r = reader();
    assert_eq!(r.record(&n, 0x4a4f4231, 2).unwrap_err(), "expected pair");
    let mut r = reader();
    assert_eq!(r.record(&n, 0x4a4f4231, 0).unwrap_err(), "expected Field atom");
    let unterminated = pair(atom(7), pair(atom(1), atom(9)));
    let mut r = reader();
    assert_eq!(r.record(&unterminated, 7, 1).unwrap_err(), "record terminator");
}

#[test]
fn visit_allowance_is_charged_and_exhausted() {
    let n = write_record(3, vec![atom(1)]).unwrap();
    let mut r = Reader { remaining: 5, sequence_limit: 10, clock: None };
    assert_eq!(r.record(&n, 3, 1).unwrap_err(), "validation visits exhausted");
    let mut r = Reader { remaining: 6, sequence_limit: 10, clock: None };
    assert!(r.record(&n, 3, 1).is_ok());
    assert_eq!(r.remaining, 0);
    let mut r = Reader { remaining: 0, sequence_limit: 10, clock: None };
    assert_eq!(r.charge(1).unwrap_err(), "validation visits exhausted");
    assert_eq!(r.remaining, 0);
}

#[test]
fn collection_errors_name_the_fault() {
    let seq = write_seq(vec![atom(1), atom(2), atom(3)]).unwrap();
    let mut r = reader();
    assert_eq!(r.bytes(&seq, 10).unwrap_err(), "collection tag");
    let mut r = reader();
    assert_eq!(r.list(&seq, 2).unwrap_err(), "collection length limit");
    let mut r = Reader { remaining: 1_000, sequence_limit: 2, clock: None };
    assert_eq!(r.list(&seq, 10).unwrap_err(), "collection length limit");
    let padded_wrong = pair(atom(SEQ1), pair(atom(3), pair(pair(atom(1), atom(2)), pair(atom(3), atom(5)))));
    let mut r = reader();
    assert_eq!(r.list(&padded_wrong, 10).unwrap_err(), "collection padding");
    let short_branch = pair(atom(SEQ1), pair(atom(3), pair(atom(1), atom(2))));
    let mut r = reader();
    assert_eq!(r.list(&short_branch, 10).unwrap_err(), "collection branch");
    let big_length = pair(atom(SEQ1), pair(atom(0x1_0000_0000), atom(0)));
    let mut r = reader();
    assert_eq!(r.list(&big_length, 10).unwrap_err(), "expected U32 atom");
}

#[test]
fn byte_word_errors_name_the_fault() {
    let wide = pair(atom(BYT1), pair(atom(4), atom(0x1_0000_0000)));
    let mut r = reader();
    assert_eq!(r.bytes(&wide, 10).unwrap_err(), "byte word range");
    let high = pair(atom(BYT1), pair(atom(1), atom(0x100)));
    let mut r = reader();
    assert_eq!(r.bytes(&high, 10).unwrap_err(), "unused high byte padding");
    let shape = pair(atom(BYT1), pair(atom(1), pair(atom(1), atom(2))));
    let mut r = reader();
    assert_eq!(r.bytes(&shape, 10).unwrap_err(), "byte word shape");
}

#[test]
fn digests_read_four_limbs() {
    let d = pair(pair(atom(1), atom(2)), pair(atom(3), atom(4)));
    let mut r = reader();
    assert_eq!(r.digest(&d).unwrap(), [1, 2, 3, 4]);
    assert_eq!(r.remaining, 1_000_000 - 10);
    let mut r = reader();
    assert_eq!(r.digest(&atom(1)).unwrap_err(), "digest shape");
}

#[test]
fn fields_are_canonical_and_words_fit_u32() {
    let mut r = reader();
    assert_eq!(r.field(&atom(0xffff_ffff_0000_0002)).unwrap(), 1);
    assert_eq!(r.word(&atom(0xffff_ffff)).unwrap(), 0xffff_ffff);
    assert_eq!(r.word(&atom(0x1_0000_0000)).unwrap_err(), "expected U32 atom");
}

#[test]
fn padding_is_recognized_by_its_digest() {
    // A field value equal to the modulus is the field's zero: same digest as the canonical padding.
    let modulus = 0xffff_ffff_0000_0001u64;
    let padded = pair(atom(SEQ1), pair(atom(3), pair(pair(atom(1), atom(2)), pair(atom(3), atom(modulus)))));
    let mut r = reader();
    assert_eq!(r.list(&padded, 10).unwrap(), vec![&atom(1), &atom(2), &atom(3)]);
    let five = |high_padding: Noun| {
        let left = pair(pair(atom(1), atom(2)), pair(atom(3), atom(4)));
        let right = pair(pair(atom(5), atom(0)), high_padding);
        pair(atom(SEQ1), pair(atom(5), pair(left, right)))
    };
    let mut r = reader();
    assert_eq!(r.list(&five(pair(atom(0), atom(0))), 10).unwrap().len(), 5);
    let mut r = reader();
    assert_eq!(r.list(&five(pair(atom(0), atom(1))), 10).unwrap_err(), "collection padding");
    let mut r = reader();
    assert_eq!(r.list(&five(atom(0)), 10).unwrap_err(), "collection padding");
}

#[test]
fn schema_admission_stops_at_its_deadline() {
    let late = Clock { start: std::time::Instant::now(), time_ms: 0 };
    let mut r = Reader { remaining: 10, sequence_limit: 10, clock: Some(late) };
    assert_eq!(r.charge(1).unwrap_err(), "execution deadline exceeded during schema admission");
    assert_eq!(r.remaining, 10);
    let seq = write_seq(vec![atom(1), atom(2), atom(3)]).unwrap();
    let mut r = Reader { remaining: 1_000, sequence_limit: 10, clock: Some(Clock { start: std::time::Instant::now(), time_ms: 0 }) };
    assert_eq!(r.list(&seq, 10).unwrap_err(), "execution deadline exceeded during schema admission");
    let mut r = Reader { remaining: 1_000, sequence_limit: 10, clock: Some(Clock { start: std::time::Instant::now(), time_ms: 60_000 }) };
    assert_eq!(r.list(&seq, 10).unwrap(), vec![&atom(1), &atom(2), &atom(3)]);
}
