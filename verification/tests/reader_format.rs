use word2vec::errors::Word2VecError;
use word2vec::vectorreader::WordVectorReader;
use word2vec::wordvectors::WordVector;

fn entry(word: &str, floats: &[f32]) -> Vec<u8> {
    let mut data = Vec::new();
    data.extend_from_slice(word.as_bytes());
    data.push(b' ');
    for x in floats {
        data.extend_from_slice(&x.to_le_bytes());
    }
    data
}

#[test]
fn test_reader_header_and_entries() {
    let mut data = b"2 2\n".to_vec();
    data.extend_from_slice(&entry("one", &[1.0, 2.0]));
    data.extend_from_slice(&entry("two", &[3.0, 4.0]));
    let mut reader = WordVectorReader::new_from_reader(data).unwrap();
    assert_eq!(reader.vocabulary_size(), 2);
    assert_eq!(reader.vector_size(), 2);
    assert_eq!(reader.vectors_read(), 0);

    let (w1, v1) = reader.next_entry().unwrap();
    assert_eq!(w1, "one");
    assert_eq!(v1, vec![1.0f32.to_bits(), 2.0f32.to_bits()]);
    assert_eq!(reader.vectors_read(), 1);

    let (w2, v2) = reader.next_entry().unwrap();
    assert_eq!(w2, "two");
    assert_eq!(v2, vec![3.0f32.to_bits(), 4.0f32.to_bits()]);

    assert!(reader.next_entry().is_none());
    assert!(!reader.ended_early());
}

#[test]
fn test_reader_tolerates_leading_newline_before_word() {
    let mut data = b"2 1\n".to_vec();
    data.extend_from_slice(&entry("first", &[1.0]));
    data.extend_from_slice(b"\n");
    data.extend_from_slice(&entry("second", &[2.0]));
    let mut reader = WordVectorReader::new_from_reader(data).unwrap();
    let (w1, _) = reader.next_entry().unwrap();
    assert_eq!(w1, "first");
    let (w2, _) = reader.next_entry().unwrap();
    assert_eq!(w2, "second");
}

#[test]
fn test_wrong_header_without_two_integers() {
    assert_eq!(
        WordVectorReader::new_from_reader(b"x\n".to_vec()).err(),
        Some(Word2VecError::WrongHeader)
    );
    assert_eq!(
        WordVectorReader::new_from_reader(b"7\n".to_vec()).err(),
        Some(Word2VecError::WrongHeader)
    );
    assert_eq!(
        WordVectorReader::new_from_reader(Vec::new()).err(),
        Some(Word2VecError::WrongHeader)
    );
    assert_eq!(
        WordVector::load_from_reader(b"hello world\n".to_vec()).err(),
        Some(Word2VecError::WrongHeader)
    );
}

#[test]
fn test_header_skips_unparseable_tokens() {
    // an oversized token and a word are skipped; the next two integers win
    let mut data = b"99999999999999999999999999 words 2 1\n".to_vec();
    data.extend_from_slice(&entry("a", &[1.0]));
    data.extend_from_slice(&entry("b", &[2.0]));
    let model = WordVector::load_from_reader(data).unwrap();
    assert_eq!(model.word_count(), 2);
    assert_eq!(model.get_col_count(), 1);
}

#[test]
fn test_header_accepts_plus_sign() {
    let mut data = b"+1 +2\n".to_vec();
    data.extend_from_slice(&entry("a", &[1.0, 2.0]));
    let model = WordVector::load_from_reader(data).unwrap();
    assert_eq!(model.word_count(), 1);
    assert_eq!(model.get_col_count(), 2);
}

#[test]
fn test_truncated_body_loads_fewer_entries() {
    let mut data = b"5 2\n".to_vec();
    data.extend_from_slice(&entry("a", &[1.0, 2.0]));
    data.extend_from_slice(&entry("b", &[3.0, 4.0]));
    let model = WordVector::load_from_reader(data).unwrap();
    assert_eq!(model.word_count(), 2);
    assert!(model.word_count() <= 5);
    assert_eq!(model.get_col_count(), 2);
}

#[test]
fn test_reader_stops_on_invalid_utf8_word() {
    let mut data = b"2 1\n".to_vec();
    data.extend_from_slice(b"\xff\xfe ");
    data.extend_from_slice(&1.0f32.to_le_bytes());
    let mut reader = WordVectorReader::new_from_reader(data.clone()).unwrap();
    assert!(reader.next_entry().is_none());
    assert!(reader.ended_early());
    let model = WordVector::load_from_reader(data).unwrap();
    assert_eq!(model.word_count(), 0);
}

#[test]
fn test_error_descriptions() {
    assert_eq!(Word2VecError::WrongHeader.description(), "Wrong header format");
    assert_eq!(Word2VecError::Decode.description(), "Decode error");
    assert_eq!(Word2VecError::Io.description(), "IO error");
}
