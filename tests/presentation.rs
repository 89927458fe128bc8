use binexplorer::hexdump::formatted_binary;

#[test]
fn test_printing_correctly() {
    let input = vec![1u8, 2, 3];
    let output = formatted_binary(&input, 0, 16);
    assert_eq!(output.as_bytes(), b"\n00000000: 0102 03");
}

#[test]
fn rows_start_at_their_address() {
    let input: Vec<u8> = (0u8..18).collect();
    let output = formatted_binary(&input, 0x1f0, 16);
    assert_eq!(
        output,
        "\n000001f0: 0001 0203 0405 0607 0809 0A0B 0C0D 0E0F \n00000200: 1011 "
    );
}

#[test]
fn addresses_wider_than_eight_digits_are_not_cut() {
    let output = formatted_binary(&[0xAB], 0x1_2345_6789, 4);
    assert_eq!(output, "\n123456789: AB");
}

#[test]
fn empty_buffer_gives_empty_dump() {
    assert_eq!(formatted_binary(&[], 0, 16), "");
}
