use ftree::size_format::get_entry_size;

#[test]
fn test_get_entry_size() {
    let size = 1024;
    assert_eq!(get_entry_size(&size), "1024 Bytes");
    let size = 1048576;
    assert_eq!(get_entry_size(&size), "1024.00 KB");
    let size = 1073741824;
    assert_eq!(get_entry_size(&size), "1024.00 MB");
    let size = 1099511627776;
    assert_eq!(get_entry_size(&size), "1024.00 GB");
}

#[test]
fn test_get_entry_size_zero() {
    assert_eq!(get_entry_size(&0), "0 Bytes");
}

#[test]
fn test_get_entry_size_band_edges() {
    // The Bytes band is inclusive of 1024; one byte more is KB.
    assert_eq!(get_entry_size(&1023), "1023 Bytes");
    assert_eq!(get_entry_size(&1025), "1.00 KB");
    assert_eq!(get_entry_size(&1536), "1.50 KB");
    assert_eq!(get_entry_size(&1048577), "1.00 MB");
    assert_eq!(get_entry_size(&1073741825), "1.00 GB");
}

#[test]
fn test_get_entry_size_two_decimals() {
    // 1100 / 1024 = 1.0742..., cut to two decimal places.
    assert_eq!(get_entry_size(&1100), "1.07 KB");
    // 2560 / 1024 = 2.5 exactly.
    assert_eq!(get_entry_size(&2560), "2.50 KB");
}
