use bytes::Bytes;
use gmdb_data_source::{assemble_all, Action, BufferedValueStream, Chunk, FullValue, Kind, Value};

fn chunk(b: &[u8]) -> Chunk {
    Chunk::new(Bytes::copy_from_slice(b))
}

fn run(parts: &[&[u8]]) -> Vec<Vec<u8>> {
    let source: Vec<Result<Chunk, String>> = parts.iter().map(|p| Ok(chunk(p))).collect();
    assemble_all(source)
        .into_iter()
        .map(|r| r.expect("no error in source").into_bytes().to_vec())
        .collect()
}

fn bytes_of(v: FullValue) -> Vec<u8> {
    v.into_bytes().to_vec()
}

fn describe(v: Option<Value>) -> Option<(bool, Vec<u8>)> {
    v.map(|v| match v {
        Value::Full(b) => (true, b.to_vec()),
        Value::Partial(b) => (false, b.to_vec()),
    })
}

#[test]
fn tokenizer_leading_and_trailing_delimiter_gives_full() {
    let mut c = chunk(b"\tab\tc");
    assert_eq!(describe(c.next()), Some((true, b"ab".to_vec())));
    assert_eq!(describe(c.next()), Some((false, b"c".to_vec())));
    assert_eq!(describe(c.next()), None);
}

#[test]
fn tokenizer_no_leading_delimiter_gives_partial() {
    let mut c = chunk(b"ab\ncd");
    assert_eq!(describe(c.next()), Some((false, b"ab".to_vec())));
    assert_eq!(describe(c.next()), Some((false, b"cd".to_vec())));
    assert_eq!(describe(c.next()), None);
}

#[test]
fn tokenizer_without_delimiters_takes_everything() {
    let mut c = chunk(b"abc");
    assert_eq!(describe(c.next()), Some((false, b"abc".to_vec())));
    assert_eq!(describe(c.next()), None);
}

#[test]
fn tokenizer_lone_delimiter_gives_empty_partial() {
    let mut c = chunk(b"\n");
    assert_eq!(describe(c.next()), Some((false, Vec::new())));
    assert_eq!(describe(c.next()), None);
}

#[test]
fn tokenizer_empty_chunk_is_exhausted() {
    let mut c = chunk(b"");
    assert_eq!(describe(c.next()), None);
}

#[test]
fn value_unwrap_returns_bytes_of_either_tag() {
    assert_eq!(Value::Full(Bytes::from_static(b"x")).unwrap(), Bytes::from_static(b"x"));
    assert_eq!(Value::Partial(Bytes::from_static(b"y")).unwrap(), Bytes::from_static(b"y"));
}

#[test]
fn two_delimiters_yield_one_empty_value() {
    assert_eq!(run(&[b"\t\t"]), vec![Vec::<u8>::new()]);
}

#[test]
fn empty_field_between_adjacent_delimiters_is_kept() {
    assert_eq!(
        run(&[b"x\t\ty\t"]),
        vec![b"x".to_vec(), Vec::new(), b"y".to_vec()]
    );
}

#[test]
fn value_cut_across_chunks_after_a_delimiter() {
    assert_eq!(
        run(&[b"a\tbc", b"d\te\n"]),
        vec![b"a".to_vec(), b"bcd".to_vec(), b"e".to_vec()]
    );
}

#[test]
fn empty_field_across_chunk_cut_is_kept() {
    let expected = vec![b"x".to_vec(), Vec::new(), b"y".to_vec()];
    assert_eq!(run(&[b"x\t", b"\ty\n"]), expected);
    assert_eq!(run(&[b"x\t\ty\n"]), expected);
}

#[test]
fn values_do_not_depend_on_chunk_cuts() {
    let single = run(&[b"p\tabc\t"]);
    assert_eq!(single, vec![b"p".to_vec(), b"abc".to_vec()]);
    assert_eq!(run(&[b"p\ta", b"bc\t"]), single);
    assert_eq!(run(&[b"p", b"\t", b"", b"abc", b"\t"]), single);
}

#[test]
fn values_joined_with_a_delimiter_give_back_the_input() {
    let parts: [&[u8]; 3] = [b"\tab\tc", b"d\t\te", b"f\n"];
    let joined = run(&parts).join(&b'\t');
    assert_eq!(joined, b"ab\tcd\t\tef".to_vec());
}

#[test]
fn value_split_across_chunks_matches_single_chunk() {
    let single = run(&[b"hello"]);
    assert_eq!(single, vec![b"hello".to_vec()]);
    assert_eq!(run(&[b"he", b"l", b"", b"lo"]), single);
    assert_eq!(run(&[b"h", b"e", b"l", b"l", b"o"]), single);
}

#[test]
fn values_rejoin_to_input_without_delimiters() {
    let parts: [&[u8]; 4] = [b"ab\tc", b"d\n\te", b"f\t", b"gh"];
    let joined: Vec<u8> = run(&parts).concat();
    let input: Vec<u8> = parts
        .concat()
        .into_iter()
        .filter(|b| *b != b'\t' && *b != b'\n')
        .collect();
    assert_eq!(joined, input);
}

#[test]
fn unterminated_trailing_value_is_flushed_at_end() {
    assert_eq!(run(&[b"\tabc\t", b"de"]), vec![b"abc".to_vec(), b"de".to_vec()]);
}

#[test]
fn no_value_after_end_with_nothing_pending() {
    assert_eq!(run(&[b"\tabc\t"]), vec![b"abc".to_vec()]);
    assert_eq!(run(&[]), Vec::<Vec<u8>>::new());
    assert_eq!(run(&[b""]), Vec::<Vec<u8>>::new());
}

#[test]
fn empty_chunk_between_delimiter_chunks() {
    assert_eq!(run(&[b"a\t", b"", b"\tb"]), vec![b"a".to_vec(), Vec::new(), b"b".to_vec()]);
}

#[test]
fn pending_pieces_from_several_chunks_are_concatenated() {
    assert_eq!(run(&[b"ab", b"cd", b"ef", b"\tg\t"]), vec![b"abcdef".to_vec(), b"g".to_vec()]);
}

#[test]
fn error_after_one_chunk_is_passed_on_in_order() {
    let source: Vec<Result<Chunk, String>> =
        vec![Ok(chunk(b"\ta\tb\tc")), Err("broken".to_string())];
    let out: Vec<Result<Vec<u8>, String>> = assemble_all(source)
        .into_iter()
        .map(|r| r.map(bytes_of))
        .collect();
    assert_eq!(
        out,
        vec![
            Ok(b"a".to_vec()),
            Ok(b"b".to_vec()),
            Err("broken".to_string()),
            Ok(b"c".to_vec()),
        ]
    );
}

#[test]
fn value_ended_inside_chunk_comes_before_error() {
    let source: Vec<Result<Chunk, String>> = vec![Ok(chunk(b"a\tb")), Err("lost".to_string())];
    let out: Vec<Result<Vec<u8>, String>> = assemble_all(source)
        .into_iter()
        .map(|r| r.map(bytes_of))
        .collect();
    assert_eq!(
        out,
        vec![Ok(b"a".to_vec()), Err("lost".to_string()), Ok(b"b".to_vec())]
    );
}

#[test]
fn error_leaves_assembler_state_alone() {
    let mut s = BufferedValueStream::new(());
    assert!(matches!(s.on_source(Some(Ok::<Chunk, u8>(chunk(b"\tx\ty")))), Action::Emit(_)));
    assert!(matches!(s.on_source(Some(Err::<Chunk, u8>(7))), Action::Fail(7)));
    assert!(s.next().is_none());
    match s.on_source(None::<Result<Chunk, u8>>) {
        Action::Emit(v) => assert_eq!(bytes_of(v), b"y".to_vec()),
        _ => panic!("pending value expected"),
    }
    assert!(matches!(s.on_source(None::<Result<Chunk, u8>>), Action::Finished));
}

#[test]
fn stream_steps_emit_then_pull() {
    let mut s = BufferedValueStream::new(());
    match s.on_source(Some(Ok::<Chunk, ()>(chunk(b"\tab\tcd\tef")))) {
        Action::Emit(v) => assert_eq!(bytes_of(v), b"ab".to_vec()),
        _ => panic!("value expected"),
    }
    assert_eq!(s.next().map(bytes_of), Some(b"cd".to_vec()));
    assert!(s.next().is_none());
    assert!(matches!(s.on_source(Some(Ok::<Chunk, ()>(chunk(b"gh")))), Action::Pull));
    assert_eq!(s.finish().map(bytes_of), Some(b"efgh".to_vec()));
    assert!(s.finish().is_none());
}

#[test]
fn full_value_passes_through_when_nothing_pending() {
    let mut s = BufferedValueStream::new(());
    assert!(matches!(s.on_source(Some(Ok::<Chunk, ()>(chunk(b"pq")))), Action::Pull));
    match s.on_source(Some(Ok::<Chunk, ()>(chunk(b"\trs\t")))) {
        Action::Emit(v) => assert_eq!(bytes_of(v), b"pq".to_vec()),
        _ => panic!("flushed value expected"),
    }
    assert_eq!(s.next().map(bytes_of), Some(b"rs".to_vec()));
    assert!(s.next().is_none());
}

#[test]
fn stream_mut_reaches_source() {
    let mut s = BufferedValueStream::new(5u32);
    *s.stream_mut() += 1;
    assert_eq!(*s.stream_mut(), 6);
}

#[test]
fn kinds_compare() {
    assert_eq!(Kind::TitleBasics, Kind::TitleBasics);
    assert_ne!(Kind::TitleCrew, Kind::NameBasics);
}

#[test]
fn full_value_borrowed_bytes() {
    let out = assemble_all(vec![Ok::<Chunk, ()>(chunk(b"\tkl\t"))]);
    match &out[0] {
        Ok(v) => assert_eq!(v.as_bytes().as_ref(), b"kl"),
        Err(_) => panic!("value expected"),
    }
    assert_eq!(out.len(), 1);
}

#[test]
fn delimiter_bytes_are_tab_and_newline() {
    assert!(gmdb_data_source::tokenizer::is_delimiter_byte(b'\t'));
    assert!(gmdb_data_source::tokenizer::is_delimiter_byte(b'\n'));
    assert!(!gmdb_data_source::tokenizer::is_delimiter_byte(b'\r'));
    assert!(!gmdb_data_source::tokenizer::is_delimiter_byte(b' '));
}
