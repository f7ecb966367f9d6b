use acorn::storage::file::{get_buf_range, get_transfer_len, StorageFile};

#[test]
fn buf_range_ends_with_the_buffer_or_the_file() {
    assert_eq!(get_buf_range(10, 4, 2), 2..6);
    assert_eq!(get_buf_range(10, 4, 8), 8..10);
    assert_eq!(get_buf_range(10, 0, 3), 3..3);
}

#[test]
fn transfer_len_is_zero_beyond_the_file() {
    assert_eq!(get_transfer_len(10, 4, 2), 4);
    assert_eq!(get_transfer_len(10, 4, 8), 2);
    assert_eq!(get_transfer_len(10, 4, 10), 0);
    assert_eq!(get_transfer_len(10, 4, 11), 0);
}

#[test]
fn vec_read_at() {
    let file: Vec<u8> = vec![1, 2, 3, 4, 5];
    let mut buf = vec![0; 3];
    assert_eq!(file.read_at(&mut buf, 1), Ok(3));
    assert_eq!(buf, vec![2, 3, 4]);

    // A read that reaches beyond the end is a short read.
    let mut buf = vec![9; 3];
    assert_eq!(file.read_at(&mut buf, 4), Ok(1));
    assert_eq!(buf, vec![5, 9, 9]);
}

#[test]
fn vec_write_at() {
    let mut file: Vec<u8> = vec![1, 2, 3, 4, 5];
    assert_eq!(file.write_at(&[7, 8], 2), Ok(2));
    assert_eq!(file, vec![1, 2, 7, 8, 5]);

    // The file does not grow.
    assert_eq!(file.write_at(&[9, 9, 9], 3), Ok(2));
    assert_eq!(file, vec![1, 2, 7, 9, 9]);
    assert_eq!(file.write_at(&[6], 5), Ok(0));
    assert_eq!(file, vec![1, 2, 7, 9, 9]);
}
