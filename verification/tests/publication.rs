use joy::publication::{aliases_destination, destination_key_of, staging_name};

#[test]
fn staging_names_carry_process_and_counter() {
    assert_eq!(staging_name(12, 0), ".12.0");
    assert_eq!(staging_name(4_294_967_295, 18_446_744_073_709_551_615), ".4294967295.18446744073709551615");
}

#[test]
fn destination_keys_drop_streams_and_trailing_dots() {
    assert_eq!(destination_key_of("out.zheng"), "out.zheng");
    assert_eq!(destination_key_of(".7.3. . "), ".7.3");
    assert_eq!(destination_key_of(".7.3:stream"), ".7.3");
    assert_eq!(destination_key_of(":x"), "");
    assert_eq!(destination_key_of(""), "");
}

#[test]
fn staging_never_aliases_the_destination() {
    assert!(aliases_destination(Some(".7.3."), ".7.3"));
    assert!(aliases_destination(Some(".7.3::$DATA"), ".7.3"));
    assert!(!aliases_destination(Some("out.dag"), ".7.3"));
    assert!(!aliases_destination(None, ".7.3"));
}
