use uxnasm::assembler::AsmFailure;
use uxnasm::assembler::UxnAssembler;
use uxnasm::assembler::UxnAssemblerErr;
use uxnasm::utils::UxnHexErr;
use uxnasm::assembler::instr::UxnrInstrErr;
use uxnasm::assembler::uxn_macro::UxnMacroErr;

fn rom(code: &str) -> Vec<u8> {
    let mut assembler = UxnAssembler::new(code);
    assembler.assemble().unwrap();
    assembler.output().to_vec()
}

fn fails(code: &str) -> UxnAssemblerErr {
    let mut assembler = UxnAssembler::new(code);
    match assembler.try_assemble() {
        Err(AsmFailure::Error(e)) => e,
        Err(AsmFailure::Fault) => panic!("fault"),
        Ok(()) => panic!("assembled"),
    }
}

fn faults(code: &str) -> bool {
    let mut assembler = UxnAssembler::new(code);
    matches!(assembler.try_assemble(), Err(AsmFailure::Fault))
}

#[test]
fn literals_and_opcodes() {
    assert_eq!(rom("|0100 #01 #02 ADD BRK"), vec![0x80, 0x01, 0x80, 0x02, 0x18, 0x00]);
    assert_eq!(rom("|0100 #1234 DEO2"), vec![0xa0, 0x12, 0x34, 0x37]);
}

#[test]
fn raw_bytes_and_shorts() {
    assert_eq!(rom("|0100 12 abcd"), vec![0x12, 0xab, 0xcd]);
}

#[test]
fn four_hex_digits_naming_an_opcode() {
    assert_eq!(rom("|0100 ADD2 DEC2 BRK"), vec![0x38, 0xde, 0xc2, 0x00]);
    let mut assembler = UxnAssembler::new("");
    assembler.do_word("|0100", 0).unwrap();
    assembler.do_word_to_bytes("ADD2", 0).unwrap();
    assert_eq!(assembler.output(), &[0x38]);
    assert_eq!(rom("|0100 LIT2 1234"), vec![0xa0, 0x12, 0x34]);
}

#[test]
fn characters_and_strings() {
    assert_eq!(rom("|0100 \"hi 'A"), vec![0x68, 0x69, 0x41]);
    assert_eq!(rom("|0100 \"é"), vec![0xc3, 0xa9]);
}

#[test]
fn padding() {
    assert_eq!(rom("|0100 $02 #01"), vec![0x00, 0x00, 0x80, 0x01]);
    assert_eq!(rom("|00ff $01 BRK"), vec![0x00]);
}

#[test]
fn whitespace_separates_words() {
    assert_eq!(rom("|0100\n#01\t#02\r\nADD  BRK\n"), vec![0x80, 0x01, 0x80, 0x02, 0x18, 0x00]);
}

#[test]
fn absolute_reference_forward() {
    // ;end at 0x100 writes LIT2 and the address 0x0104 of @end
    assert_eq!(rom("|0100 ;end JMP2 @end BRK"), vec![0xa0, 0x01, 0x04, 0x2c, 0x00]);
}

#[test]
fn absolute_reference_backward_and_raw() {
    assert_eq!(rom("|0100 @start BRK :start"), vec![0x00, 0x01, 0x00]);
}

#[test]
fn relative_reference() {
    assert_eq!(rom("|0100 ,loop JMP @loop BRK"), vec![0x80, 0x00, 0x0c, 0x00]);
    // a backward jump wraps below zero
    assert_eq!(rom("|0100 @loop BRK ,loop JMP"), vec![0x00, 0x80, 0xfc, 0x0c]);
}

#[test]
fn zero_page_reference() {
    assert_eq!(rom("|0000 @zp $01 |0100 .zp LDZ BRK"), vec![0x80, 0x00, 0x10, 0x00]);
}

#[test]
fn child_labels() {
    assert_eq!(
        rom("|0100 @main &loop ,&loop JMP @other &loop ;main/loop"),
        vec![0x80, 0xfd, 0x0c, 0xa0, 0x01, 0x00]
    );
}

#[test]
fn comments_are_skipped() {
    assert_eq!(rom("( hello ADD ) |0100 ( more ) BRK"), vec![0x00]);
    assert_eq!(rom("|0100 (nested (still) ) BRK"), vec![0x00]);
}

#[test]
fn macros_expand() {
    assert_eq!(
        rom("%add-three { ADD ADD } |0100 #01 #02 #03 add-three"),
        vec![0x80, 0x01, 0x80, 0x02, 0x80, 0x03, 0x18, 0x18]
    );
    // a four-digit hex word that names a macro is a macro call
    assert_eq!(rom("%ADD3 { ADD ADD } |0100 ADD3"), vec![0x18, 0x18]);
    // two hex digits are always a raw byte
    assert_eq!(rom("%ab { #01 } |0100 ab"), vec![0xab]);
    assert_eq!(rom("%one { #01 } %two { one one } |0100 two"), vec![0x80, 0x01, 0x80, 0x01]);
    // a later definition replaces an earlier one
    assert_eq!(rom("%m { #01 } %m { #02 } |0100 m"), vec![0x80, 0x02]);
}

#[test]
fn undefined_symbol() {
    assert!(matches!(fails("|0100 ;nowhere"), UxnAssemblerErr::UndefinedSymbol(s) if s == "nowhere"));
}

#[test]
fn label_not_in_zero_page() {
    assert!(matches!(fails("|0200 @far |0100 .far"), UxnAssemblerErr::NotInZpg(s) if s == "far"));
}

#[test]
fn hex_errors() {
    assert!(matches!(fails("#zz"), UxnAssemblerErr::HexErr(UxnHexErr::InvalidHex(s)) if s == "zz"));
    assert!(matches!(fails("|123"), UxnAssemblerErr::HexErr(UxnHexErr::BigHex(s)) if s == "123"));
    assert!(matches!(fails("#"), UxnAssemblerErr::HexErr(UxnHexErr::EmptyHex)));
}

#[test]
fn instruction_errors() {
    assert!(matches!(fails("FOO"), UxnAssemblerErr::InstrErr(UxnrInstrErr::BadInstr(s)) if s == "FOO"));
    assert!(matches!(fails("ADDq"), UxnAssemblerErr::InstrErr(UxnrInstrErr::BadMode('q'))));
}

#[test]
fn macro_errors() {
    assert!(matches!(fails("%m x }"), UxnAssemblerErr::MacrErr(UxnMacroErr::NoBody)));
    assert!(matches!(fails("%m [ a }"), UxnAssemblerErr::MacrErr(UxnMacroErr::NoArgEndDelim)));
}

#[test]
fn faulting_sources() {
    // a pad of four digits
    assert!(faults("$1234"));
    // a character literal with nothing after the quote
    assert!(faults("'"));
    // a word too short to be an opcode
    assert!(faults("A"));
    // a macro that calls itself
    assert!(faults("%m { m } m"));
    // a relative offset that leaves the signed byte range
    assert!(faults("|0100 ,far |0200 @far"));
    assert!(faults("|0200 @back |0300 ,back"));
}

#[test]
fn relative_reference_across_a_page() {
    let bytes = rom("|017e ,next JMP @next");
    assert_eq!(bytes.len(), 0x81);
    assert_eq!(bytes[0x7e..].to_vec(), vec![0x80, 0x00, 0x0c]);
}

#[test]
fn relative_reference_at_the_range_ends() {
    // 0x180 - 0x101 - 2 == 125
    assert_eq!(rom("|0100 ,far |0180 @far"), vec![0x80, 0x7d]);
    // 0x182 - 0x101 - 2 == 127, the largest forward offset
    assert_eq!(rom("|0100 ,far |0182 @far"), vec![0x80, 0x7f]);
    assert!(faults("|0100 ,far |0183 @far"));
    // 0x181 - 0x1ff - 2 == -128, the largest backward offset
    let bytes = rom("|0181 @back |01fe ,back");
    assert_eq!(bytes[0xfe..].to_vec(), vec![0x80, 0x80]);
    assert!(faults("|0180 @back |01fe ,back"));
}

#[test]
fn words_one_at_a_time() {
    let mut assembler = UxnAssembler::new("");
    assembler.do_word("|0100", 0).unwrap();
    assembler.do_word("#01", 1).unwrap();
    assembler.do_word_to_bytes("BRK", 1).unwrap();
    assert_eq!(assembler.output(), &[0x80, 0x01, 0x00]);
}

#[test]
fn default_is_empty() {
    let mut assembler = UxnAssembler::default();
    assembler.assemble().unwrap();
    assembler.do_word("|0100", 0).unwrap();
    assembler.do_word("BRK", 0).unwrap();
    assert_eq!(assembler.output(), &[0x00]);
}

#[test]
fn resolving_leaves_other_bytes() {
    assert_eq!(
        rom("|0100 #ff ;x #ee @x"),
        vec![0x80, 0xff, 0xa0, 0x01, 0x07, 0x80, 0xee]
    );
}

#[test]
fn macro_call_is_its_words_one_by_one() {
    let mut called = UxnAssembler::new("");
    for w in ["%m", "{", "#01", "ADD2", "}", "|0100"] {
        called.do_word(w, 0).unwrap();
    }
    called.do_word_to_bytes("m", 0).unwrap();
    let mut direct = UxnAssembler::new("");
    for w in ["|0100"] {
        direct.do_word(w, 0).unwrap();
    }
    direct.do_word_to_bytes("#01", 0).unwrap();
    direct.do_word_to_bytes("ADD2", 0).unwrap();
    assert_eq!(called.output(), direct.output());
    assert_eq!(called.output(), &[0x80, 0x01, 0x38]);
}

#[test]
fn do_word_passes_other_words_on() {
    let mut a = UxnAssembler::new("");
    a.do_word("|0100", 0).unwrap();
    a.do_word(";x", 0).unwrap();
    let mut b = UxnAssembler::new("");
    b.do_word("|0100", 0).unwrap();
    b.do_word_to_bytes(";x", 0).unwrap();
    a.do_word("@x", 0).unwrap();
    b.do_word("@x", 0).unwrap();
    assert_eq!(a.output(), b.output());
}
