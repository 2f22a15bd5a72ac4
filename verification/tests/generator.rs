use sm64gs2pc::Decl;
use sm64gs2pc::DeclKind;
use sm64gs2pc::DecompData;
use sm64gs2pc::Type;
use sm64gs2pc::gameshark::ValueSize;

fn add_int(decomp_data: &mut DecompData, addr: u32, num_bytes: u32, name: &str) {
    decomp_data.add_decl(Decl {
        addr,
        kind: DeclKind::Var {
            typ: Type::Int {
                signed: false,
                num_bytes,
            },
        },
        name: name.to_owned(),
    });
}

fn add_float(decomp_data: &mut DecompData, addr: u32, name: &str) {
    decomp_data.add_decl(Decl {
        addr,
        kind: DeclKind::Var { typ: Type::Float },
        name: name.to_owned(),
    });
}

fn decomp_data() -> DecompData {
    let mut data = DecompData::default();
    add_int(&mut data, 0x8000, 1, "A");
    add_int(&mut data, 0x8001, 1, "B");
    add_int(&mut data, 0x8002, 1, "C");
    add_int(&mut data, 0x8003, 1, "D");
    add_int(&mut data, 0x8004, 4, "E");
    add_int(&mut data, 0x8008, 4, "F");
    add_int(&mut data, 0x800c, 2, "G");
    add_int(&mut data, 0x800e, 2, "H");
    add_float(&mut data, 0x8010, "f0");
    data
}

#[test]
fn test_format_write() {
    let data = decomp_data();

    assert_eq!(
        data.format_write(ValueSize::Bits8, 0xaa, 0x8000).unwrap(),
        "A = (A & 0xffffffffffffff00) | 0xaa;"
    );
    assert_eq!(
        data.format_write(ValueSize::Bits8, 0xaa, 0x800c).unwrap(),
        "G = (G & 0xffffffffffff00ff) | 0xaa00;"
    );
    assert_eq!(
        data.format_write(ValueSize::Bits8, 0xaa, 0x8004).unwrap(),
        "E = (E & 0xffffffff00ffffff) | 0xaa000000;"
    );
    assert_eq!(
        data.format_write(ValueSize::Bits8, 0xaa, 0x800d).unwrap(),
        "G = (G & 0xffffffffffffff00) | 0xaa;"
    );
    assert_eq!(
        data.format_write(ValueSize::Bits16, 0xabcd, 0x800e).unwrap(),
        "H = (H & 0xffffffffffff0000) | 0xabcd;"
    );

    // Write spans multiple ints
    assert_eq!(
        data.format_write(ValueSize::Bits16, 0xabcd, 0x8000).unwrap(),
        "A = (A & 0xffffffffffffff00) | 0xab; B = (B & 0xffffffffffffff00) | 0xcd;"
    );
    assert_eq!(
        data.format_write(ValueSize::Bits16, 0xabcd, 0x8003).unwrap(),
        "D = (D & 0xffffffffffffff00) | 0xab; E = (E & 0xffffffff00ffffff) | 0xcd000000;"
    );
    assert_eq!(
        data.format_write(ValueSize::Bits16, 0xabcd, 0x8007).unwrap(),
        "E = (E & 0xffffffffffffff00) | 0xab; F = (F & 0xffffffff00ffffff) | 0xcd000000;"
    );

    // Floats
    assert_eq!(
        data.format_write(ValueSize::Bits16, 0xabcd, 0x8010).unwrap(),
        "*(uint32_t *) &f0 = (*(uint32_t *) &f0 & 0xffffffff0000ffff) | 0xabcd0000;"
    );
}

#[test]
fn test_format_check() {
    let data = decomp_data();

    assert_eq!(
        data.format_check(ValueSize::Bits8, 0xaa, 0x8000, true).unwrap(),
        "if ((A & 0xff) == 0xaa)"
    );
    assert_eq!(
        data.format_check(ValueSize::Bits8, 0xaa, 0x800c, true).unwrap(),
        "if ((G & 0xff00) == 0xaa00)"
    );
    assert_eq!(
        data.format_check(ValueSize::Bits8, 0xaa, 0x8004, true).unwrap(),
        "if ((E & 0xff000000) == 0xaa000000)"
    );
    assert_eq!(
        data.format_check(ValueSize::Bits8, 0xaa, 0x800d, true).unwrap(),
        "if ((G & 0xff) == 0xaa)"
    );
    assert_eq!(
        data.format_check(ValueSize::Bits16, 0xabcd, 0x800e, true).unwrap(),
        "if ((H & 0xffff) == 0xabcd)"
    );

    // Check spans multiple ints
    assert_eq!(
        data.format_check(ValueSize::Bits16, 0xabcd, 0x8000, true).unwrap(),
        "if ((A & 0xff) == 0xab) if ((B & 0xff) == 0xcd)"
    );
    assert_eq!(
        data.format_check(ValueSize::Bits16, 0xabcd, 0x8003, true).unwrap(),
        "if ((D & 0xff) == 0xab) if ((E & 0xff000000) == 0xcd000000)"
    );
    assert_eq!(
        data.format_check(ValueSize::Bits16, 0xabcd, 0x8007, true).unwrap(),
        "if ((E & 0xff) == 0xab) if ((F & 0xff000000) == 0xcd000000)"
    );
}

#[test]
fn decomp_data_test_format_write() {
    test_format_write_cases();
}

#[test]
fn decomp_data_test_format_check() {
    test_format_check_cases();
}

fn test_format_write_cases() {
    let data = decomp_data();
    assert_eq!(
        data.format_write(ValueSize::Bits8, 0xaa, 0x8000).unwrap(),
        "A = (A & 0xffffffffffffff00) | 0xaa;"
    );
    assert_eq!(
        data.format_write(ValueSize::Bits8, 0xaa, 0x800c).unwrap(),
        "G = (G & 0xffffffffffff00ff) | 0xaa00;"
    );
    assert_eq!(
        data.format_write(ValueSize::Bits8, 0xaa, 0x8004).unwrap(),
        "E = (E & 0xffffffff00ffffff) | 0xaa000000;"
    );
    assert_eq!(
        data.format_write(ValueSize::Bits8, 0xaa, 0x800d).unwrap(),
        "G = (G & 0xffffffffffffff00) | 0xaa;"
    );
    assert_eq!(
        data.format_write(ValueSize::Bits16, 0xabcd, 0x800e).unwrap(),
        "H = (H & 0xffffffffffff0000) | 0xabcd;"
    );
    assert_eq!(
        data.format_write(ValueSize::Bits16, 0xabcd, 0x8000).unwrap(),
        "A = (A & 0xffffffffffffff00) | 0xab; B = (B & 0xffffffffffffff00) | 0xcd;"
    );
    assert_eq!(
        data.format_write(ValueSize::Bits16, 0xabcd, 0x8003).unwrap(),
        "D = (D & 0xffffffffffffff00) | 0xab; E = (E & 0xffffffff00ffffff) | 0xcd000000;"
    );
    assert_eq!(
        data.format_write(ValueSize::Bits16, 0xabcd, 0x8007).unwrap(),
        "E = (E & 0xffffffffffffff00) | 0xab; F = (F & 0xffffffff00ffffff) | 0xcd000000;"
    );
    assert_eq!(
        data.format_write(ValueSize::Bits16, 0xabcd, 0x8010).unwrap(),
        "*(uint32_t *) &f0 = (*(uint32_t *) &f0 & 0xffffffff0000ffff) | 0xabcd0000;"
    );
}

fn test_format_check_cases() {
    let data = decomp_data();
    assert_eq!(
        data.format_check(ValueSize::Bits8, 0xaa, 0x8000, true).unwrap(),
        "if ((A & 0xff) == 0xaa)"
    );
    assert_eq!(
        data.format_check(ValueSize::Bits8, 0xaa, 0x800c, true).unwrap(),
        "if ((G & 0xff00) == 0xaa00)"
    );
    assert_eq!(
        data.format_check(ValueSize::Bits8, 0xaa, 0x8004, true).unwrap(),
        "if ((E & 0xff000000) == 0xaa000000)"
    );
    assert_eq!(
        data.format_check(ValueSize::Bits8, 0xaa, 0x800d, true).unwrap(),
        "if ((G & 0xff) == 0xaa)"
    );
    assert_eq!(
        data.format_check(ValueSize::Bits16, 0xabcd, 0x800e, true).unwrap(),
        "if ((H & 0xffff) == 0xabcd)"
    );
    assert_eq!(
        data.format_check(ValueSize::Bits16, 0xabcd, 0x8000, true).unwrap(),
        "if ((A & 0xff) == 0xab) if ((B & 0xff) == 0xcd)"
    );
    assert_eq!(
        data.format_check(ValueSize::Bits16, 0xabcd, 0x8003, true).unwrap(),
        "if ((D & 0xff) == 0xab) if ((E & 0xff000000) == 0xcd000000)"
    );
    assert_eq!(
        data.format_check(ValueSize::Bits16, 0xabcd, 0x8007, true).unwrap(),
        "if ((E & 0xff) == 0xab) if ((F & 0xff000000) == 0xcd000000)"
    );
}

#[test]
fn value_size_helpers() {
    assert_eq!(ValueSize::Bits8.num_bytes(), 1);
    assert_eq!(ValueSize::Bits16.num_bytes(), 2);
    assert_eq!(ValueSize::Bits8.mask(), 0xff);
    assert_eq!(ValueSize::Bits16.mask(), 0xffff);
    assert_eq!(ValueSize::Bits8.mask() & 0xaabbccdd, 0xdd);
}
