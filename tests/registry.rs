use hopper65::registry::{arch_header, ArchHeader};

#[test]
fn header_absent_without_prefix() {
    assert_eq!(arch_header(b""), ArchHeader::Absent);
    assert_eq!(arch_header(b"arc"), ArchHeader::Absent);
    assert_eq!(arch_header(b"Arch 6502\nx"), ArchHeader::Absent);
}

#[test]
fn header_incomplete_without_line_break() {
    assert_eq!(arch_header(b"arch 6502"), ArchHeader::Incomplete);
    assert_eq!(arch_header(b"arch "), ArchHeader::Incomplete);
}

#[test]
fn header_finds_first_line_break() {
    assert_eq!(arch_header(b"arch 6502\nasm\nmore"), ArchHeader::Present { newline: 9 });
    assert_eq!(arch_header(b"arch \n"), ArchHeader::Present { newline: 5 });
}
