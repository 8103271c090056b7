use mapannot::files::format_size;

#[test]
fn sizes_below_a_kibibyte_are_whole_bytes() {
    assert_eq!(format_size(0), "0 B");
    assert_eq!(format_size(7), "7 B");
    assert_eq!(format_size(1023), "1023 B");
}

#[test]
fn sizes_in_kibibytes() {
    assert_eq!(format_size(1024), "1.00 KiB");
    assert_eq!(format_size(1536), "1.50 KiB");
    assert_eq!(format_size(1165), "1.14 KiB");
    assert_eq!(format_size(1048575), "1024.00 KiB");
}

#[test]
fn sizes_round_ties_to_even() {
    // 1152 / 1024 = 1.125 and 1408 / 1024 = 1.375
    assert_eq!(format_size(1152), "1.12 KiB");
    assert_eq!(format_size(1408), "1.38 KiB");
}

#[test]
fn sizes_in_mebibytes_and_gibibytes() {
    assert_eq!(format_size(1048576), "1.00 MiB");
    assert_eq!(format_size(3 * 1048576 + 262144), "3.25 MiB");
    assert_eq!(format_size(1073741824), "1.00 GiB");
    assert_eq!(format_size(10 * 1073741824), "10.00 GiB");
    assert_eq!(format_size(u64::MAX), "17179869184.00 GiB");
}
