use uxnasm::assembler::instr::new;
use uxnasm::assembler::instr::UxnrInstrErr;

#[test]
fn plain_opcodes() {
    assert_eq!(new("BRK").unwrap(), 0x00);
    assert_eq!(new("INC").unwrap(), 0x01);
    assert_eq!(new("ADD").unwrap(), 0x18);
    assert_eq!(new("SFT").unwrap(), 0x1f);
    assert_eq!(new("DEO").unwrap(), 0x17);
}

#[test]
fn opcode_modes() {
    assert_eq!(new("ADD2").unwrap(), 0x38);
    assert_eq!(new("ADDk").unwrap(), 0x98);
    assert_eq!(new("ADDr").unwrap(), 0x58);
    assert_eq!(new("INC2kr").unwrap(), 0xe1);
    // a mode given twice is the same as once
    assert_eq!(new("ADD22").unwrap(), 0x38);
}

#[test]
fn lit_is_brk_with_keep() {
    assert_eq!(new("LIT").unwrap(), 0x80);
    assert_eq!(new("LITk").unwrap(), 0x80);
    assert_eq!(new("LIT2").unwrap(), 0xa0);
    assert_eq!(new("LITr").unwrap(), 0xc0);
    assert_eq!(new("LIT2r").unwrap(), 0xe0);
}

#[test]
fn opcode_errors() {
    assert!(matches!(new("XYZ"), Err(UxnrInstrErr::BadInstr(s)) if s == "XYZ"));
    assert!(matches!(new("add"), Err(UxnrInstrErr::BadInstr(s)) if s == "add"));
    assert!(matches!(new("ADDx"), Err(UxnrInstrErr::BadMode('x'))));
    assert!(matches!(new("ADD2é"), Err(UxnrInstrErr::BadMode('é'))));
    assert!(matches!(new("BRK2"), Err(UxnrInstrErr::ModesOnBrk)));
    assert!(matches!(new("BRKx"), Err(UxnrInstrErr::ModesOnBrk)));
    // the first three bytes may hold fewer than three characters
    assert!(matches!(new("éa"), Err(UxnrInstrErr::BadInstr(s)) if s == "éa"));
    assert!(matches!(new("€x"), Err(UxnrInstrErr::BadInstr(s)) if s == "€"));
}
