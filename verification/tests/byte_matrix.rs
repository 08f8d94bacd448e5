use vigenere::byte_matrix::ByteMatrix;
use vigenere::cipher::Error;

fn check_transpose_and_back(text: &str, size: usize) {
    let matrix = ByteMatrix::transpose(text.as_bytes(), size);
    let bytes = matrix.reassemble();
    let out = std::str::from_utf8(&bytes).unwrap();
    assert_eq!(text, out);
}

#[test]
fn test_transpose_and_back() {
    check_transpose_and_back("lalalala", 2);
    check_transpose_and_back("lalalal", 2);
    check_transpose_and_back("lalala", 2);

    check_transpose_and_back("this is a Random test to see if it works", 3);
    check_transpose_and_back("Let's try this again", 7);
    check_transpose_and_back("And another time to see what happens", 2);

    check_transpose_and_back("A", 3);
    check_transpose_and_back("And another time to see what happens", 1);
}

#[test]
fn transpose_and_back_for_every_column_count() {
    let text = "the quick brown fox jumps over the lazy dog";
    for size in 1..=text.len() + 3 {
        check_transpose_and_back(text, size);
    }
    check_transpose_and_back("", 1);
    check_transpose_and_back("", 4);
    check_transpose_and_back("x", 1);
}

#[test]
fn transpose_deals_bytes_out_by_position() {
    let matrix = ByteMatrix::transpose(b"abcdefgh", 3);
    let columns = matrix.transform(|column: &Vec<u8>| column.clone());
    assert_eq!(b"abcdefgh".to_vec(), columns.reassemble());
    let firsts = matrix.transform(|column: &Vec<u8>| vec![column[0]]);
    assert_eq!(b"abc".to_vec(), firsts.reassemble());
    let lengths = matrix.transform(|column: &Vec<u8>| vec![column.len() as u8]);
    assert_eq!(vec![3, 3, 2], lengths.reassemble());
    let lasts = matrix.transform(|column: &Vec<u8>| vec![*column.last().unwrap()]);
    assert_eq!(b"ghf".to_vec(), lasts.reassemble());
}

#[test]
fn transform_changes_every_column() {
    let matrix = ByteMatrix::transpose(b"abcdef", 2);
    let upper = matrix.transform(|column: &Vec<u8>| column.iter().map(|b| b - 32).collect());
    assert_eq!(b"ABCDEF".to_vec(), upper.reassemble());
}

#[test]
fn reassemble_reads_as_many_rows_as_the_first_column_has() {
    let matrix = ByteMatrix::transpose(b"abcdef", 3);
    // Column 0 keeps one byte, the others keep two: only one row is read.
    let cut = matrix.transform(|column: &Vec<u8>| {
        if column[0] == b'a' {
            vec![column[0]]
        } else {
            column.clone()
        }
    });
    assert_eq!(b"abc".to_vec(), cut.reassemble());
    // A column that is too short for a row is passed over.
    let gap = matrix.transform(|column: &Vec<u8>| {
        if column[0] == b'b' {
            vec![column[0]]
        } else {
            column.clone()
        }
    });
    assert_eq!(b"abcdf".to_vec(), gap.reassemble());
}

#[test]
fn try_transpose_refuses_bad_column_counts() {
    assert!(matches!(ByteMatrix::try_transpose(b"abc", 0), Err(Error::InvalidInput)));
    assert!(matches!(ByteMatrix::try_transpose(b"abc", 4), Err(Error::InvalidInput)));
    assert!(matches!(ByteMatrix::try_transpose(b"", 1), Err(Error::InvalidInput)));
    let matrix = ByteMatrix::try_transpose(b"abc", 3).unwrap();
    assert_eq!(b"abc".to_vec(), matrix.reassemble());
}
