use pe_study::hex_view::{
    get_address_group_information_from_file_buf, reassemble, update_file_byte,
};
use pe_study::PeError;

fn sample_buffer() -> Vec<u8> {
    let mut buf: Vec<u8> = Vec::new();
    for i in 0..37u8 {
        buf.push(i.wrapping_mul(7).wrapping_add(0x1D));
    }
    buf
}

#[test]
fn rows_cover_the_buffer_sixteen_bytes_at_a_time() {
    let buf = sample_buffer();
    let rows = get_address_group_information_from_file_buf(buf.clone());
    assert_eq!(rows.len(), 3);
    assert_eq!(rows[0].address, "00000000");
    assert_eq!(rows[1].address, "00000010");
    assert_eq!(rows[2].address, "00000020");
    assert_eq!(rows[0].bytes.len(), 16);
    assert_eq!(rows[1].bytes.len(), 16);
    assert_eq!(rows[2].bytes.len(), 5);
    assert_eq!(rows[0].bytes[0].index, 0);
    assert_eq!(rows[0].bytes[0].bytes, "1D");
    assert_eq!(rows[1].bytes[2].index, 0x12);
    assert_eq!(rows[1].bytes[2].bytes, format!("{:02X}", buf[0x12]));
}

#[test]
fn translation_shows_printable_bytes_and_dots() {
    let buf: Vec<u8> = vec![0x41, 0x7E, 0x20, 0x00, 0x21, 0x7F];
    let rows = get_address_group_information_from_file_buf(buf);
    assert_eq!(rows.len(), 1);
    assert_eq!(rows[0].translation, "A~..!.");
}

#[test]
fn hex_view_round_trips() {
    let buf = sample_buffer();
    let rows = get_address_group_information_from_file_buf(buf.clone());
    assert_eq!(reassemble(&rows), buf);
}

#[test]
fn empty_buffer_round_trips() {
    let rows = get_address_group_information_from_file_buf(Vec::new());
    assert!(rows.is_empty());
    assert_eq!(reassemble(&rows), Vec::<u8>::new());
}

#[test]
fn editing_one_byte_changes_only_that_byte() {
    let buf = sample_buffer();
    let mut rows = get_address_group_information_from_file_buf(buf.clone());
    assert_eq!(update_file_byte(&mut rows, "10", "FF"), Ok(()));
    let edited = reassemble(&rows);
    for (i, b) in edited.iter().enumerate() {
        if i == 0x10 {
            assert_eq!(*b, 0xFF);
        } else {
            assert_eq!(*b, buf[i]);
        }
    }
}

#[test]
fn editing_with_a_bad_index_changes_nothing() {
    let buf = sample_buffer();
    let mut rows = get_address_group_information_from_file_buf(buf.clone());
    assert_eq!(update_file_byte(&mut rows, "zz", "FF"), Err(PeError::InvalidAddress));
    assert_eq!(reassemble(&rows), buf);
}

#[test]
fn unparsable_cells_reassemble_to_zero() {
    let buf: Vec<u8> = vec![1, 2, 3];
    let mut rows = get_address_group_information_from_file_buf(buf);
    assert_eq!(update_file_byte(&mut rows, "1", "not hex"), Ok(()));
    assert_eq!(reassemble(&rows), vec![1, 0, 3]);
}
