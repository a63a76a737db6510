use hopper65::listing::{grouped_value_to_bytes, ListingConfig};

#[test]
fn hex_value_to_bytes() {
    assert_eq!(grouped_value_to_bytes(0x1234, 16, 4, 1), vec![0x12, 0x34]);
    assert_eq!(grouped_value_to_bytes(0xdead_beef, 16, 4, 2), vec![0xde, 0xad, 0xbe, 0xef]);
}

#[test]
fn octal_value_to_bytes_rounds_up() {
    assert_eq!(grouped_value_to_bytes(0o777, 8, 3, 1), vec![0x01, 0xff]);
}

#[test]
fn zero_width_gives_no_bytes() {
    assert!(grouped_value_to_bytes(0xff, 16, 0, 3).is_empty());
    assert!(grouped_value_to_bytes(0xff, 16, 2, 0).is_empty());
}

#[test]
fn constructors_set_base() {
    let h = ListingConfig::new_hex(2, 4, 1, 2);
    assert_eq!((h.base, h.addr_groups, h.addr_group_width, h.entry_groups, h.entry_group_width), (16, 2, 4, 1, 2));
    let o = ListingConfig::new_octal(2, 3, 2, 3);
    assert_eq!((o.base, o.addr_groups, o.addr_group_width, o.entry_groups, o.entry_group_width), (8, 2, 3, 2, 3));
    assert_eq!(h.group_bits(), 8);
    assert_eq!(o.group_bits(), 9);
}

use hopper65::assembly::parse_asm_listing;
use hopper65::listing::{format_grouped_number, print_asm_listing, print_detached_listing, ListingEntry};
use hopper65::parse::parse_grouped_number;

fn entry(address: u64, bytes: Vec<u8>, text: &str) -> ListingEntry {
    ListingEntry { address, bytes, text: text.to_string() }
}

#[test]
fn format_hex_groups_zero_padded() {
    let cfg = ListingConfig::new_hex(2, 4, 1, 2);
    assert_eq!(format_grouped_number(0x12_0034, cfg, 2, 4), "0012.0034");
    assert_eq!(format_grouped_number(0xabcd, cfg, 1, 2), "cd");
    assert_eq!(format_grouped_number(0xff, cfg, 0, 2), "");
}

#[test]
fn format_octal_groups() {
    let cfg = ListingConfig::new_octal(2, 3, 1, 3);
    assert_eq!(format_grouped_number(0o123_456, cfg, 2, 3), "123.456");
    assert_eq!(format_grouped_number(0o7, cfg, 2, 3), "000.007");
}

#[test]
fn parse_grouped_hex_and_octal() {
    assert_eq!(parse_grouped_number("ffff.ffff", 16, Some(2)), Ok(0xffff_ffff));
    assert_eq!(parse_grouped_number("12.34", 16, None), Ok(0x1234));
    assert_eq!(parse_grouped_number("777.777", 8, Some(2)), Ok(0o777_777));
    assert_eq!(parse_grouped_number("1.2", 16, Some(3)), Err("group count mismatch"));
    assert_eq!(parse_grouped_number("1.g", 16, None), Err("invalid group digits"));
    assert_eq!(parse_grouped_number("1..2", 16, None), Err("invalid group digits"));
    assert_eq!(parse_grouped_number("+f", 16, None), Ok(0xf));
    assert_eq!(parse_grouped_number("8", 8, None), Err("invalid group digits"));
}

#[test]
fn parse_grouped_rejects_too_wide_group() {
    let wide = "1".repeat(32);
    assert_eq!(parse_grouped_number(&wide, 16, None), Err("invalid group digits"));
    assert_eq!(parse_grouped_number(&"1".repeat(31), 16, None), Ok(u128::from_str_radix(&"1".repeat(31), 16).unwrap()));
}

#[test]
fn parse_asm_lines() {
    let cfg = ListingConfig::new_hex(2, 4, 1, 4);
    let text = "  0000.0010 a9ff lda #$ff\n\n0000.0012 0000\r\n";
    let r = parse_asm_listing(text, cfg).unwrap();
    assert_eq!(r.len(), 2);
    assert_eq!(r[0].address, 0x10);
    assert_eq!(r[0].bytes, vec![0xa9, 0xff]);
    assert_eq!(r[0].text, "lda #$ff");
    assert_eq!(r[1].address, 0x12);
    assert_eq!(r[1].bytes, vec![0, 0]);
    assert_eq!(r[1].text, "");
}

#[test]
fn parse_asm_errors() {
    let hex = ListingConfig::new_hex(2, 4, 1, 4);
    assert_eq!(parse_asm_listing("0000.0010\n", hex).unwrap_err(), "missing entry");
    assert_eq!(parse_asm_listing("0000.00x0 a9ff\n", hex).unwrap_err(), "invalid hex groups");
    assert_eq!(parse_asm_listing("0010 a9ff\n", hex).unwrap_err(), "group count mismatch");
    let oct = ListingConfig::new_octal(2, 3, 1, 3);
    assert_eq!(parse_asm_listing("000.019 777\n", oct).unwrap_err(), "invalid octal groups");
    let mut odd = hex;
    odd.base = 10;
    assert_eq!(parse_asm_listing("1.2 3\n", odd).unwrap_err(), "unsupported base");
    assert!(parse_asm_listing("", hex).unwrap().is_empty());
}

#[test]
fn print_asm_round_trips() {
    let cfg = ListingConfig::new_hex(2, 4, 1, 4);
    let es = vec![entry(0x10, vec![0xa9, 0xff], "lda #$ff"), entry(0x12, vec![0xea], "")];
    let text = print_asm_listing(&es, cfg);
    assert_eq!(text, "0000.0010 a9ff lda #$ff\n0000.0012 00ea\n");
    let back = parse_asm_listing(&text, cfg).unwrap();
    assert_eq!(back[0].bytes, vec![0xa9, 0xff]);
    assert_eq!(back[1].bytes, vec![0x00, 0xea]);
}

#[test]
fn print_detached_places_bytes() {
    let cfg = ListingConfig::new_hex(1, 4, 1, 2);
    let es = vec![entry(2, vec![0xaa, 0xbb], "start"), entry(0, vec![], "; note"), entry(5, vec![0xcc], "end")];
    let (comments, raw) = print_detached_listing(&es, cfg);
    assert_eq!(comments, "0002 start\n; note\n0005 end\n");
    assert_eq!(raw, vec![0, 0, 0xaa, 0xbb, 0, 0xcc]);
}

use hopper65::detached::parse_detached_listing;

#[test]
fn parse_detached_addresses_and_comments() {
    let cfg = ListingConfig::new_hex(2, 4, 1, 2);
    let raw = [0xa9u8, 0x01, 0x8d, 0x00, 0x02];
    let text = "; header\n0000.0001 first\n____.____ next\n\n0000.0009 past end\n";
    let r = parse_detached_listing(text, &raw, cfg).unwrap();
    assert_eq!(r.len(), 4);
    assert_eq!((r[0].address, r[0].bytes.clone(), r[0].text.as_str()), (0, vec![], "; header"));
    assert_eq!((r[1].address, r[1].bytes.clone(), r[1].text.as_str()), (1, vec![0x01], "first"));
    assert_eq!((r[2].address, r[2].bytes.clone(), r[2].text.as_str()), (2, vec![0x8d], "next"));
    assert_eq!((r[3].address, r[3].bytes.clone(), r[3].text.as_str()), (9, vec![], "past end"));
}

#[test]
fn parse_detached_non_hex_token_is_comment() {
    let cfg = ListingConfig::new_hex(2, 4, 1, 2);
    let r = parse_detached_listing("x.y note", &[1, 2], cfg).unwrap();
    assert_eq!((r[0].address, r[0].text.as_str()), (0, "x.y note"));
    assert_eq!(parse_detached_listing("0001 note", &[1, 2], cfg).unwrap()[0].text, "0001 note");
}

#[test]
fn parse_detached_errors() {
    let hex = ListingConfig::new_hex(2, 4, 1, 2);
    assert_eq!(parse_detached_listing("1.2.3 x", &[], hex).unwrap_err(), "address group count mismatch");
    let oct = ListingConfig::new_octal(2, 3, 1, 3);
    assert_eq!(parse_detached_listing("000.009 x", &[], oct).unwrap_err(), "invalid group digits");
    assert_eq!(parse_detached_listing("1.2.3 x", &[], oct).unwrap_err(), "group count mismatch");
}

#[test]
fn parse_detached_octal_window_spans_bytes() {
    let oct = ListingConfig::new_octal(2, 3, 1, 3);
    let raw = [1u8, 2, 3, 4];
    let r = parse_detached_listing("000.001 a\n___.___ b", &raw, oct).unwrap();
    assert_eq!(r[0].bytes, vec![2, 3]);
    assert_eq!(r[1].address, 3);
    assert_eq!(r[1].bytes, vec![4]);
}

#[test]
fn describe_pads_address_to_eight_digits() {
    assert_eq!(entry(0x1f, vec![], "nop").describe(), "0000001f: nop");
    assert_eq!(entry(0x1_2345_6789, vec![1], "far").describe(), "123456789: far");
    assert_eq!(entry(0, vec![], "").describe(), "00000000: ");
}
