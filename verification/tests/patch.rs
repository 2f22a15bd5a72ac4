use sm64gs2pc::Decl;
use sm64gs2pc::ToPatchError;
use sm64gs2pc::gameshark::ValueSize;
use sm64gs2pc::DeclKind;
use sm64gs2pc::DecompData;
use sm64gs2pc::Struct;
use sm64gs2pc::StructField;
use sm64gs2pc::Type;
use sm64gs2pc::gameshark::Code;

fn byte_array(count: u32) -> Type {
    Type::Array {
        element_type: Box::new(Type::Int {
            signed: false,
            num_bytes: 1,
        }),
        num_elements: count,
    }
}

fn field(offset: u32, name: &str, typ: Type) -> StructField {
    StructField {
        offset,
        name: name.to_owned(),
        typ,
    }
}

fn var(addr: u32, name: &str, typ: Type) -> Decl {
    Decl {
        addr,
        kind: DeclKind::Var { typ },
        name: name.to_owned(),
    }
}

/// Symbol data shaped like the part of the decompilation these cheats
/// touch: save files, controllers, Mario's state and body state.
fn decomp_data() -> DecompData {
    let mut data = DecompData::default();

    // struct SaveFile { u8 header[12]; u8 courseStars[25]; u8 courseCoinScores[25]; }
    data.add_struct(
        "SaveFile".to_owned(),
        Struct {
            fields: vec![
                field(0, "header", byte_array(12)),
                field(12, "courseStars", byte_array(25)),
                field(37, "courseCoinScores", byte_array(25)),
            ],
        },
    );
    // struct SaveBuffer { struct SaveFile files[2][4]; }
    data.add_struct(
        "SaveBuffer".to_owned(),
        Struct {
            fields: vec![field(
                0,
                "files",
                Type::Array {
                    element_type: Box::new(Type::Array {
                        element_type: Box::new(Type::Struct {
                            name: "SaveFile".to_owned(),
                        }),
                        num_elements: 4,
                    }),
                    num_elements: 2,
                },
            )],
        },
    );
    // struct Controller { u16 buttonDown; }
    data.add_struct(
        "Controller".to_owned(),
        Struct {
            fields: vec![field(
                0,
                "buttonDown",
                Type::Int {
                    signed: false,
                    num_bytes: 2,
                },
            )],
        },
    );
    // struct MarioState { pads, u32 flags, u32 action, f32 vel[3] }
    data.add_struct(
        "MarioState".to_owned(),
        Struct {
            fields: vec![
                field(0, "playerIndex", byte_array(4)),
                field(
                    4,
                    "flags",
                    Type::Int {
                        signed: false,
                        num_bytes: 4,
                    },
                ),
                field(
                    8,
                    "particleFlags",
                    Type::Int {
                        signed: false,
                        num_bytes: 4,
                    },
                ),
                field(
                    12,
                    "action",
                    Type::Int {
                        signed: false,
                        num_bytes: 4,
                    },
                ),
                field(16, "actionState", byte_array(56)),
                field(
                    72,
                    "vel",
                    Type::Array {
                        element_type: Box::new(Type::Float),
                        num_elements: 3,
                    },
                ),
            ],
        },
    );
    // struct BodyState { u8 pad[12]; s16 torsoAngle[3]; }
    data.add_struct(
        "BodyState".to_owned(),
        Struct {
            fields: vec![
                field(0, "action", byte_array(12)),
                field(
                    12,
                    "torsoAngle",
                    Type::Array {
                        element_type: Box::new(Type::Int {
                            signed: true,
                            num_bytes: 2,
                        }),
                        num_elements: 3,
                    },
                ),
            ],
        },
    );

    data.add_decl(var(
        0x80207700,
        "gSaveBuffer",
        Type::Struct {
            name: "SaveBuffer".to_owned(),
        },
    ));
    data.add_decl(var(
        0x8033AFA0,
        "gControllers",
        Type::Array {
            element_type: Box::new(Type::Struct {
                name: "Controller".to_owned(),
            }),
            num_elements: 2,
        },
    ));
    data.add_decl(var(
        0x8033B170,
        "gMarioStates",
        Type::Array {
            element_type: Box::new(Type::Struct {
                name: "MarioState".to_owned(),
            }),
            num_elements: 2,
        },
    ));
    data.add_decl(var(
        0x8033B3B0,
        "gBodyStates",
        Type::Array {
            element_type: Box::new(Type::Struct {
                name: "BodyState".to_owned(),
            }),
            num_elements: 2,
        },
    ));
    data
}

/// Helper for creating patches with minimal boilerplate
fn gs_to_patch(decomp_data: &DecompData, name: &str, code: &str) -> String {
    let code = Code::parse(code).unwrap();
    let patch = decomp_data.gs_code_to_patch(name, code).unwrap();
    println!("{}", patch);
    patch
}

#[test]
fn patch_convert_static() {
    let decomp_data = decomp_data();

    assert_eq!(
        gs_to_patch(
            &decomp_data,
            "Have 180 Stars",
            "8120770C FFFF
8120770E FFFF
81207710 FFFF
81207712 FFFF
81207714 FFFF
81207716 FFFF
81207718 FFFF
8120771A FFFF
8120771C FFFF
8120771E FFFF
81207720 FFFF
81207722 FFFF
81207724 FFFF",
        ),
        "--- a/src/game/gameshark.c
+++ b/src/game/gameshark.c
@@ -4,2 +4,17 @@
 void run_gameshark_cheats(void) {
+
+    /* Have 180 Stars */
+    /* 8120770C FFFF */ gSaveBuffer.files[0][0].courseStars[0] = (gSaveBuffer.files[0][0].courseStars[0] & 0xffffffffffffff00) | 0xff; gSaveBuffer.files[0][0].courseStars[1] = (gSaveBuffer.files[0][0].courseStars[1] & 0xffffffffffffff00) | 0xff;
+    /* 8120770E FFFF */ gSaveBuffer.files[0][0].courseStars[2] = (gSaveBuffer.files[0][0].courseStars[2] & 0xffffffffffffff00) | 0xff; gSaveBuffer.files[0][0].courseStars[3] = (gSaveBuffer.files[0][0].courseStars[3] & 0xffffffffffffff00) | 0xff;
+    /* 81207710 FFFF */ gSaveBuffer.files[0][0].courseStars[4] = (gSaveBuffer.files[0][0].courseStars[4] & 0xffffffffffffff00) | 0xff; gSaveBuffer.files[0][0].courseStars[5] = (gSaveBuffer.files[0][0].courseStars[5] & 0xffffffffffffff00) | 0xff;
+    /* 81207712 FFFF */ gSaveBuffer.files[0][0].courseStars[6] = (gSaveBuffer.files[0][0].courseStars[6] & 0xffffffffffffff00) | 0xff; gSaveBuffer.files[0][0].courseStars[7] = (gSaveBuffer.files[0][0].courseStars[7] & 0xffffffffffffff00) | 0xff;
+    /* 81207714 FFFF */ gSaveBuffer.files[0][0].courseStars[8] = (gSaveBuffer.files[0][0].courseStars[8] & 0xffffffffffffff00) | 0xff; gSaveBuffer.files[0][0].courseStars[9] = (gSaveBuffer.files[0][0].courseStars[9] & 0xffffffffffffff00) | 0xff;
+    /* 81207716 FFFF */ gSaveBuffer.files[0][0].courseStars[10] = (gSaveBuffer.files[0][0].courseStars[10] & 0xffffffffffffff00) | 0xff; gSaveBuffer.files[0][0].courseStars[11] = (gSaveBuffer.files[0][0].courseStars[11] & 0xffffffffffffff00) | 0xff;
+    /* 81207718 FFFF */ gSaveBuffer.files[0][0].courseStars[12] = (gSaveBuffer.files[0][0].courseStars[12] & 0xffffffffffffff00) | 0xff; gSaveBuffer.files[0][0].courseStars[13] = (gSaveBuffer.files[0][0].courseStars[13] & 0xffffffffffffff00) | 0xff;
+    /* 8120771A FFFF */ gSaveBuffer.files[0][0].courseStars[14] = (gSaveBuffer.files[0][0].courseStars[14] & 0xffffffffffffff00) | 0xff; gSaveBuffer.files[0][0].courseStars[15] = (gSaveBuffer.files[0][0].courseStars[15] & 0xffffffffffffff00) | 0xff;
+    /* 8120771C FFFF */ gSaveBuffer.files[0][0].courseStars[16] = (gSaveBuffer.files[0][0].courseStars[16] & 0xffffffffffffff00) | 0xff; gSaveBuffer.files[0][0].courseStars[17] = (gSaveBuffer.files[0][0].courseStars[17] & 0xffffffffffffff00) | 0xff;
+    /* 8120771E FFFF */ gSaveBuffer.files[0][0].courseStars[18] = (gSaveBuffer.files[0][0].courseStars[18] & 0xffffffffffffff00) | 0xff; gSaveBuffer.files[0][0].courseStars[19] = (gSaveBuffer.files[0][0].courseStars[19] & 0xffffffffffffff00) | 0xff;
+    /* 81207720 FFFF */ gSaveBuffer.files[0][0].courseStars[20] = (gSaveBuffer.files[0][0].courseStars[20] & 0xffffffffffffff00) | 0xff; gSaveBuffer.files[0][0].courseStars[21] = (gSaveBuffer.files[0][0].courseStars[21] & 0xffffffffffffff00) | 0xff;
+    /* 81207722 FFFF */ gSaveBuffer.files[0][0].courseStars[22] = (gSaveBuffer.files[0][0].courseStars[22] & 0xffffffffffffff00) | 0xff; gSaveBuffer.files[0][0].courseStars[23] = (gSaveBuffer.files[0][0].courseStars[23] & 0xffffffffffffff00) | 0xff;
+    /* 81207724 FFFF */ gSaveBuffer.files[0][0].courseStars[24] = (gSaveBuffer.files[0][0].courseStars[24] & 0xffffffffffffff00) | 0xff; gSaveBuffer.files[0][0].courseCoinScores[0] = (gSaveBuffer.files[0][0].courseCoinScores[0] & 0xffffffffffffff00) | 0xff;
 ",
    );

    assert_eq!(
        gs_to_patch(
            &decomp_data,
            "Moon Jump",
            "D033AFA1 0020
8133B1BC 4220
D033B1BD 0020
8133B17C 0300
D033B1BD 0020
8133B17E 0880",
        ),
        "--- a/src/game/gameshark.c
+++ b/src/game/gameshark.c
@@ -4,2 +4,10 @@
 void run_gameshark_cheats(void) {
+
+    /* Moon Jump */
+    /* D033AFA1 0020 */ if ((gControllers[0].buttonDown & 0xff) == 0x20)
+    /* 8133B1BC 4220 */ *(uint32_t *) &gMarioStates[0].vel[1] = (*(uint32_t *) &gMarioStates[0].vel[1] & 0xffffffff0000ffff) | 0x42200000;
+    /* D033B1BD 0020 */ if ((*(uint32_t *) &gMarioStates[0].vel[1] & 0xff0000) == 0x200000)
+    /* 8133B17C 0300 */ gMarioStates[0].action = (gMarioStates[0].action & 0xffffffff0000ffff) | 0x3000000;
+    /* D033B1BD 0020 */ if ((*(uint32_t *) &gMarioStates[0].vel[1] & 0xff0000) == 0x200000)
+    /* 8133B17E 0880 */ gMarioStates[0].action = (gMarioStates[0].action & 0xffffffffffff0000) | 0x880;
 ",
    );

    assert_eq!(
        gs_to_patch(&decomp_data, "Always have Metal Cap", "8133B176 0015"),
        "--- a/src/game/gameshark.c
+++ b/src/game/gameshark.c
@@ -4,2 +4,5 @@
 void run_gameshark_cheats(void) {
+
+    /* Always have Metal Cap */
+    /* 8133B176 0015 */ gMarioStates[0].flags = (gMarioStates[0].flags & 0xffffffffffff0000) | 0x15;
 ",
    );

    assert_eq!(
        gs_to_patch(&decomp_data, "Limbo Mario", "8033B3BC 00C0"),
        "--- a/src/game/gameshark.c
+++ b/src/game/gameshark.c
@@ -4,2 +4,5 @@
 void run_gameshark_cheats(void) {
+
+    /* Limbo Mario */
+    /* 8033B3BC 00C0 */ gBodyStates[0].torsoAngle[0] = (gBodyStates[0].torsoAngle[0] & 0xffffffffffff00ff) | 0xc000;
 ",
    );
}

#[test]
fn resolver_errors() {
    let mut data = DecompData::default();
    data.add_decl(var(
        0x9000,
        "table",
        Type::Array {
            element_type: Box::new(Type::Int {
                signed: false,
                num_bytes: 2,
            }),
            num_elements: 4,
        },
    ));
    data.add_decl(var(
        0x9010,
        "cursor",
        Type::Pointer {
            inner_type: Box::new(Type::Float),
        },
    ));
    data.add_decl(Decl {
        addr: 0x9020,
        kind: DeclKind::Fn,
        name: "update".to_owned(),
    });
    data.add_decl(var(
        0x9030,
        "mystery",
        Type::Struct {
            name: "Missing".to_owned(),
        },
    ));
    data.add_decl(var(0x9040, "opaque", Type::Ignored));

    // One element past the end of a fixed-length array.
    assert!(matches!(
        data.addr_to_lvalue(0x9008),
        Err(ToPatchError::ArrayOutOfBounds { addr: 0x9008, .. })
    ));
    // Assignment through a pointer is rejected, not followed.
    assert!(matches!(
        data.addr_to_lvalue(0x9010),
        Err(ToPatchError::PointerAssign { addr: 0x9010 })
    ));
    // Functions cannot be patched.
    assert!(matches!(
        data.addr_to_lvalue(0x9020),
        Err(ToPatchError::FnPatch { addr: 0x9020 })
    ));
    // A named struct missing from the registry.
    assert!(matches!(
        data.addr_to_lvalue(0x9030),
        Err(ToPatchError::NoStruct { .. })
    ));
    // An ignored type.
    assert!(matches!(
        data.addr_to_lvalue(0x9040),
        Err(ToPatchError::IgnoredType)
    ));
    // An address below every declaration.
    assert!(matches!(
        data.addr_to_lvalue(0x100),
        Err(ToPatchError::NoDecl { addr: 0x100 })
    ));
    // No field starting at or below the address.
    let mut gap = DecompData::default();
    gap.add_struct(
        "Gappy".to_owned(),
        Struct {
            fields: vec![field(
                8,
                "late",
                Type::Int {
                    signed: false,
                    num_bytes: 1,
                },
            )],
        },
    );
    gap.add_decl(var(
        0xA000,
        "gap",
        Type::Struct {
            name: "Gappy".to_owned(),
        },
    ));
    assert!(matches!(
        gap.addr_to_lvalue(0xA001),
        Err(ToPatchError::NoField { addr: 0xA001 })
    ));
    // In-bounds element accesses still resolve.
    let lv = data.addr_to_lvalue(0x9006).unwrap();
    assert_eq!(lv.to_text(), "table[3]");
    assert_eq!(
        data.format_write(ValueSize::Bits8, 0x7, 0x9006).unwrap(),
        "table[3] = (table[3] & 0xffffffffffff00ff) | 0x700;"
    );
}
