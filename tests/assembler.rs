use kukios::{Assembler, Instruction, Operand, Register};

#[test]
fn assembles_each_instruction() {
    assert_eq!(Assembler::assemble("mov eax 5"), Some(vec![0xb8, 5, 0, 0, 0]));
    assert_eq!(Assembler::assemble("xor eax eax"), Some(vec![0x31, 0xc0]));
    assert_eq!(Assembler::assemble("int 128"), Some(vec![0xcd, 0x80]));
}

#[test]
fn immediate_is_little_endian() {
    assert_eq!(
        Assembler::assemble("mov eax 305419896"),
        Some(vec![0xb8, 0x78, 0x56, 0x34, 0x12])
    );
    assert_eq!(
        Assembler::assemble("mov eax 4294967295"),
        Some(vec![0xb8, 0xff, 0xff, 0xff, 0xff])
    );
}

#[test]
fn several_lines_with_blank_and_spacing() {
    let src = "  mov   eax\t1\r\n\nxor eax eax\n   \nint +128\n";
    assert_eq!(
        Assembler::assemble(src),
        Some(vec![0xb8, 1, 0, 0, 0, 0x31, 0xc0, 0xcd, 0x80])
    );
    assert_eq!(Assembler::assemble(""), Some(vec![]));
}

#[test]
fn unrecognised_lines_add_nothing() {
    assert_eq!(Assembler::assemble("nop\nmov eax\nint 256\nmov eax 4294967296\nmov ecx 1"), Some(vec![]));
    assert_eq!(Assembler::assemble("int +\nint -1\nint 1x"), Some(vec![]));
}

#[test]
fn operands_without_encoding_fail() {
    assert_eq!(Assembler::assemble("mov ebx 5"), None);
    assert_eq!(Assembler::assemble("int 1\nxor eax 1"), None);
    assert_eq!(Assembler::assemble("mov eax ebx\nint 1"), None);
}

#[test]
fn parse_line_and_operands() {
    assert_eq!(
        Assembler::parse_line(&b"mov eax 7".to_vec()),
        Some(Instruction::Mov { dest: Register::Eax, src: Operand::Immediate(7) })
    );
    assert_eq!(
        Assembler::parse_line(&b"xor ebx eax".to_vec()),
        Some(Instruction::Xor { dest: Register::Ebx, src: Operand::Register(Register::Eax) })
    );
    assert_eq!(Assembler::parse_line(&b"int 033".to_vec()), Some(Instruction::Int { interrupt: 33 }));
    assert_eq!(Assembler::parse_line(&b"mov 1 eax".to_vec()), None);
    assert_eq!(Assembler::parse_register(&b"ebx".to_vec()), Some(Register::Ebx));
    assert_eq!(Assembler::parse_register(&b"eaxx".to_vec()), None);
    assert_eq!(Assembler::parse_operand(&b"+42".to_vec()), Some(Operand::Immediate(42)));
    assert_eq!(Assembler::parse_operand(&b"eax".to_vec()), Some(Operand::Register(Register::Eax)));
}

#[test]
fn encoders() {
    assert_eq!(
        Assembler::encode_instruction(Instruction::Int { interrupt: 3 }),
        Some(vec![0xcd, 3])
    );
    assert_eq!(Assembler::encode_mov(Register::Eax, Operand::Immediate(256)), Some(vec![0xb8, 0, 1, 0, 0]));
    assert_eq!(Assembler::encode_mov(Register::Eax, Operand::Register(Register::Ebx)), None);
    assert_eq!(Assembler::encode_xor(Register::Eax, Operand::Register(Register::Eax)), Some(vec![0x31, 0xc0]));
    assert_eq!(Assembler::encode_xor(Register::Ebx, Operand::Register(Register::Ebx)), None);
}
