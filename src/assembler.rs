use vstd::prelude::*;
use vstd::string::StringSliceAdditionalSpecFns;

verus! {

/// A register operand.
#[derive(Debug, Clone, Copy, PartialEq, Eq, Structural)]
pub enum Register {
    Eax,
    Ebx,
}

/// A source operand: a register or a 32-bit immediate.
#[derive(Debug, Clone, Copy, PartialEq, Eq, Structural)]
pub enum Operand {
    Register(Register),
    Immediate(u32),
}

/// One instruction of the assembly language.
#[derive(Debug, Clone, Copy, PartialEq, Eq, Structural)]
pub enum Instruction {
    Mov { dest: Register, src: Operand },
    Xor { dest: Register, src: Operand },
    Int { interrupt: u8 },
}

/// Whitespace between tokens: space, tab, line feed, vertical tab, form
/// feed, carriage return.
pub open spec fn is_space(b: u8) -> bool {
    b == 0x20u8 || (0x09u8 <= b && b <= 0x0du8)
}

/// The finished tokens and the token in progress after reading `s`.
pub open spec fn token_state(s: Seq<u8>) -> (Seq<Seq<u8>>, Seq<u8>)
    decreases s.len(),
{
    if s.len() == 0 {
        (Seq::empty(), Seq::empty())
    } else {
        let (done, cur) = token_state(s.drop_last());
        if is_space(s.last()) {
            if cur.len() > 0 {
                (done.push(cur), Seq::empty())
            } else {
                (done, cur)
            }
        } else {
            (done, cur.push(s.last()))
        }
    }
}

/// The whitespace-separated tokens of `s`, in order.
pub open spec fn tokens(s: Seq<u8>) -> Seq<Seq<u8>> {
    let (done, cur) = token_state(s);
    if cur.len() > 0 {
        done.push(cur)
    } else {
        done
    }
}

/// The lines of `s`: the pieces between line feeds, empty ones included.
pub open spec fn lines(s: Seq<u8>) -> Seq<Seq<u8>>
    decreases s.len(),
{
    if s.len() == 0 {
        seq![Seq::empty()]
    } else {
        let ls = lines(s.drop_last());
        if s.last() == 0x0au8 {
            ls.push(Seq::empty())
        } else {
            ls.update(ls.len() - 1, ls.last().push(s.last()))
        }
    }
}

/// The value of a string of decimal digits.
pub open spec fn decimal(s: Seq<u8>) -> nat
    decreases s.len(),
{
    if s.len() == 0 {
        0
    } else {
        decimal(s.drop_last()) * 10 + (s.last() - 0x30u8) as nat
    }
}

pub open spec fn is_digit(b: u8) -> bool {
    0x30u8 <= b && b <= 0x39u8
}

/// Every byte of `s` is a decimal digit.
pub open spec fn all_digits(s: Seq<u8>) -> bool {
    forall|i: int| 0 <= i < s.len() ==> is_digit(#[trigger] s[i])
}

/// An unsigned decimal number no larger than `max`: an optional `+`, then
/// one or more digits.
pub open spec fn parse_number(s: Seq<u8>, max: nat) -> Option<nat> {
    let body = if s.len() > 0 && s[0] == 0x2bu8 {
        s.drop_first()
    } else {
        s
    };
    if body.len() > 0 && all_digits(body) && decimal(body) <= max {
        Some(decimal(body))
    } else {
        None
    }
}

pub open spec fn register_of(t: Seq<u8>) -> Option<Register> {
    if t == seq![0x65u8, 0x61u8, 0x78u8] {
        Some(Register::Eax)
    } else if t == seq![0x65u8, 0x62u8, 0x78u8] {
        Some(Register::Ebx)
    } else {
        None
    }
}

pub open spec fn operand_of(t: Seq<u8>) -> Option<Operand> {
    match register_of(t) {
        Some(r) => Some(Operand::Register(r)),
        None => match parse_number(t, u32::MAX as nat) {
            Some(v) => Some(Operand::Immediate(v as u32)),
            None => None,
        },
    }
}

/// The instruction that a line of tokens spells, if any.
pub open spec fn instruction_of(ts: Seq<Seq<u8>>) -> Option<Instruction> {
    if ts.len() == 3 && ts[0] == seq![0x6du8, 0x6fu8, 0x76u8] && register_of(ts[1]) is Some
        && operand_of(ts[2]) is Some {
        Some(Instruction::Mov { dest: register_of(ts[1])->Some_0, src: operand_of(ts[2])->Some_0 })
    } else if ts.len() == 3 && ts[0] == seq![0x78u8, 0x6fu8, 0x72u8] && register_of(ts[1]) is Some
        && operand_of(ts[2]) is Some {
        Some(Instruction::Xor { dest: register_of(ts[1])->Some_0, src: operand_of(ts[2])->Some_0 })
    } else if ts.len() == 2 && ts[0] == seq![0x69u8, 0x6eu8, 0x74u8] && parse_number(ts[1], 255)
        is Some {
        Some(Instruction::Int { interrupt: parse_number(ts[1], 255)->Some_0 as u8 })
    } else {
        None
    }
}

/// The little-endian bytes of `v`.
pub open spec fn le_bytes(v: u32) -> Seq<u8> {
    seq![
        (v % 256) as u8,
        ((v / 256) % 256) as u8,
        ((v / 65536) % 256) as u8,
        ((v / 16777216) % 256) as u8,
    ]
}

/// The machine code of an instruction, for the operand forms that have one:
/// `mov eax, imm32`, `xor eax, eax` and `int imm8`.
pub open spec fn encoding(ins: Instruction) -> Option<Seq<u8>> {
    match ins {
        Instruction::Mov { dest: Register::Eax, src: Operand::Immediate(v) } => Some(
            seq![0xb8u8] + le_bytes(v),
        ),
        Instruction::Xor { dest: Register::Eax, src: Operand::Register(Register::Eax) } => Some(
            seq![0x31u8, 0xc0u8],
        ),
        Instruction::Int { interrupt } => Some(seq![0xcdu8, interrupt]),
        _ => None,
    }
}

/// The code of a sequence of lines: lines that spell no instruction add
/// nothing; an instruction without an encoding makes the whole result
/// `None`.
pub open spec fn code_of(ls: Seq<Seq<u8>>) -> Option<Seq<u8>>
    decreases ls.len(),
{
    if ls.len() == 0 {
        Some(Seq::empty())
    } else {
        match code_of(ls.drop_last()) {
            None => None,
            Some(prev) => match instruction_of(tokens(ls.last())) {
                None => Some(prev),
                Some(ins) => match encoding(ins) {
                    None => None,
                    Some(c) => Some(prev + c),
                },
            },
        }
    }
}

/// Whether two byte strings are equal.
fn same_bytes(a: &Vec<u8>, b: &[u8]) -> (r: bool)
    ensures
        r == (a@ == b@),
{
    if a.len() != b.len() {
        return false;
    }
    let mut i: usize = 0;
    while i < a.len()
        invariant
            i <= a@.len(),
            a@.len() == b@.len(),
            forall|j: int| 0 <= j < i ==> a@[j] == b@[j],
        decreases a@.len() - i,
    {
        if a[i] != b[i] {
            return false;
        }
        i = i + 1;
    }
    assert(a@ =~= b@);
    true
}

proof fn lemma_decimal_grows(s: Seq<u8>, i: int)
    requires
        0 <= i <= s.len(),
        forall|j: int| 0 <= j < s.len() ==> is_digit(s[j]),
    ensures
        decimal(s.take(i)) <= decimal(s),
    decreases s.len() - i,
{
    if i < s.len() {
        lemma_decimal_grows(s, i + 1);
        assert(s.take(i + 1).drop_last() =~= s.take(i));
        assert(s.take(i + 1).last() == s[i]);
        assert(is_digit(s[i]));
        assert(decimal(s.take(i + 1)) == decimal(s.take(i)) * 10 + (s[i] - 0x30u8) as nat);
    } else {
        assert(s.take(i) =~= s);
    }
}

/// Splits `line` into its whitespace-separated tokens.
pub fn tokenize(line: &Vec<u8>) -> (r: Vec<Vec<u8>>)
    ensures
        crate::path::views(r@) == tokens(line@),
{
    let mut done: Vec<Vec<u8>> = Vec::new();
    let mut cur: Vec<u8> = Vec::new();
    let mut i: usize = 0;
    while i < line.len()
        invariant
            i <= line@.len(),
            (crate::path::views(done@), cur@) == token_state(line@.take(i as int)),
        decreases line@.len() - i,
    {
        let c = line[i];
        assert(line@.take(i + 1).drop_last() =~= line@.take(i as int));
        if c == 0x20u8 || (0x09u8 <= c && c <= 0x0du8) {
            if cur.len() > 0 {
                let ghost d0 = done@;
                done.push(cur);
                cur = Vec::new();
                assert(crate::path::views(done@) =~= crate::path::views(d0).push(
                    token_state(line@.take(i as int)).1,
                ));
            }
        } else {
            cur.push(c);
        }
        i = i + 1;
    }
    assert(line@.take(i as int) =~= line@);
    if cur.len() > 0 {
        let ghost d0 = done@;
        let ghost c0 = cur@;
        done.push(cur);
        assert(crate::path::views(done@) =~= crate::path::views(d0).push(c0));
    }
    done
}

/// Reads an unsigned decimal number no larger than `max`.
pub fn parse_number_exec(t: &Vec<u8>, max: u32) -> (r: Option<u32>)
    ensures
        r is Some <==> parse_number(t@, max as nat) is Some,
        r is Some ==> r->Some_0 as nat == parse_number(t@, max as nat)->Some_0,
{
    let ghost body = if t@.len() > 0 && t@[0] == 0x2bu8 {
        t@.drop_first()
    } else {
        t@
    };
    let start: usize = if t.len() > 0 && t[0] == 0x2bu8 {
        1
    } else {
        0
    };
    assert(body =~= t@.skip(start as int));
    if start >= t.len() {
        return None;
    }
    let mut acc: u32 = 0;
    let mut i: usize = start;
    while i < t.len()
        invariant
            start <= i <= t@.len(),
            body =~= t@.skip(start as int),
            body == (if t@.len() > 0 && t@[0] == 0x2bu8 {
                t@.drop_first()
            } else {
                t@
            }),
            acc as nat == decimal(body.take(i - start)),
            acc <= max,
            forall|j: int| 0 <= j < i - start ==> is_digit(body[j]),
        decreases t@.len() - i,
    {
        let c = t[i];
        assert(body[i - start] == c);
        assert(body.take(i - start + 1).drop_last() =~= body.take(i - start));
        assert(body.take(i - start + 1).last() == c);
        if c < 0x30u8 || c > 0x39u8 {
            proof {
                let k = i - start;
                assert(!is_digit(body[k]));
                assert(!all_digits(body));
            }
            return None;
        }
        let d = (c - 0x30u8) as u32;
        let next: u64 = acc as u64 * 10 + d as u64;
        assert(decimal(body.take(i - start + 1)) == next as nat);
        if next > max as u64 {
            proof {
                if all_digits(body) {
                    lemma_decimal_grows(body, i - start + 1);
                    assert(decimal(body) > max);
                }
            }
            return None;
        }
        acc = next as u32;
        i = i + 1;
    }
    assert(body.take(i - start) =~= body);
    Some(acc)
}

/// What one line adds to the code: nothing when it spells no instruction,
/// `None` when its instruction has no encoding.
pub open spec fn line_code(line: Seq<u8>) -> Option<Seq<u8>> {
    match instruction_of(tokens(line)) {
        None => Some(Seq::empty()),
        Some(ins) => encoding(ins),
    }
}

proof fn lemma_code_push(ls: Seq<Seq<u8>>, l: Seq<u8>)
    ensures
        code_of(ls.push(l)) == match code_of(ls) {
            None => None,
            Some(prev) => match line_code(l) {
                None => None,
                Some(c) => Some(prev + c),
            },
        },
{
    assert(ls.push(l).drop_last() =~= ls);
    if let Some(prev) = code_of(ls) {
        assert(prev + Seq::<u8>::empty() =~= prev);
    }
}

/// Whether `t` is the three bytes `a`, `b`, `c`.
fn is_word(t: &Vec<u8>, a: u8, b: u8, c: u8) -> (r: bool)
    ensures
        r == (t@ == seq![a, b, c]),
{
    let r = t.len() == 3 && t[0] == a && t[1] == b && t[2] == c;
    if r {
        assert(t@ =~= seq![a, b, c]);
    }
    r
}

/// Translates a small x86 assembly language to machine code.
pub struct Assembler;

impl Assembler {
    /// The code of `source`, line by line. Lines that spell no instruction
    /// add nothing; `None` when a line holds an instruction whose operands
    /// have no encoding.
    pub fn assemble(source: &str) -> (r: Option<Vec<u8>>)
        ensures
            r is Some <==> code_of(lines(source.spec_bytes())) is Some,
            r is Some ==> r->Some_0@ == code_of(lines(source.spec_bytes()))->Some_0,
    {
        let bytes = source.as_bytes();
        let mut out: Vec<u8> = Vec::new();
        let mut failed = false;
        let mut cur: Vec<u8> = Vec::new();
        let ghost mut done: Seq<Seq<u8>> = Seq::empty();
        let mut i: usize = 0;
        assert(bytes@.take(0) =~= Seq::<u8>::empty());
        while i < bytes.len()
            invariant
                i <= bytes@.len(),
                bytes@ == source.spec_bytes(),
                lines(bytes@.take(i as int)) == done.push(cur@),
                failed ==> code_of(done) is None,
                !failed ==> code_of(done) == Some(out@),
            decreases bytes@.len() - i,
        {
            let c = bytes[i];
            assert(bytes@.take(i + 1).drop_last() =~= bytes@.take(i as int));
            if c == 0x0au8 {
                proof {
                    lemma_code_push(done, cur@);
                }
                if !failed {
                    match Self::encode_line(&cur) {
                        Some(code) => {
                            let mut k: usize = 0;
                            let ghost out0 = out@;
                            while k < code.len()
                                invariant
                                    k <= code@.len(),
                                    out@ == out0 + code@.take(k as int),
                                decreases code@.len() - k,
                            {
                                out.push(code[k]);
                                k = k + 1;
                                assert(out@ =~= out0 + code@.take(k as int));
                            }
                            assert(code@.take(k as int) =~= code@);
                        },
                        None => {
                            failed = true;
                        },
                    }
                }
                proof {
                    done = done.push(cur@);
                }
                cur = Vec::new();
                assert(lines(bytes@.take(i + 1)) =~= done.push(cur@));
            } else {
                let ghost c0 = cur@;
                cur.push(c);
                assert(lines(bytes@.take(i + 1)) =~= done.push(cur@)) by {
                    assert(done.push(c0).update(done.len() as int, c0.push(c)) =~= done.push(cur@));
                }
            }
            i = i + 1;
        }
        assert(bytes@.take(i as int) =~= bytes@);
        proof {
            lemma_code_push(done, cur@);
        }
        if failed {
            return None;
        }
        match Self::encode_line(&cur) {
            Some(code) => {
                let mut k: usize = 0;
                let ghost out0 = out@;
                while k < code.len()
                    invariant
                        k <= code@.len(),
                        out@ == out0 + code@.take(k as int),
                    decreases code@.len() - k,
                {
                    out.push(code[k]);
                    k = k + 1;
                    assert(out@ =~= out0 + code@.take(k as int));
                }
                assert(code@.take(k as int) =~= code@);
                Some(out)
            },
            None => None,
        }
    }

    /// The code that one line adds.
    fn encode_line(line: &Vec<u8>) -> (r: Option<Vec<u8>>)
        ensures
            r is Some <==> line_code(line@) is Some,
            r is Some ==> r->Some_0@ == line_code(line@)->Some_0,
    {
        match Self::parse_line(line) {
            None => Some(Vec::new()),
            Some(ins) => Self::encode_instruction(ins),
        }
    }

    /// The instruction that `line` spells, if any.
    pub fn parse_line(line: &Vec<u8>) -> (r: Option<Instruction>)
        ensures
            r == instruction_of(tokens(line@)),
    {
        let parts = tokenize(line);
        proof {
            let ts = tokens(line@);
            assert(crate::path::views(parts@) == ts);
            if parts@.len() > 0 {
                assert(parts@[0]@ == ts[0]);
            }
            if parts@.len() > 1 {
                assert(parts@[1]@ == ts[1]);
            }
            if parts@.len() > 2 {
                assert(parts@[2]@ == ts[2]);
            }
        }
        if parts.len() == 3 && is_word(&parts[0], 0x6d, 0x6f, 0x76) {
            let dest = match Self::parse_register(&parts[1]) {
                Some(d) => d,
                None => {
                    return None;
                },
            };
            let src = match Self::parse_operand(&parts[2]) {
                Some(s) => s,
                None => {
                    return None;
                },
            };
            return Some(Instruction::Mov { dest, src });
        }
        if parts.len() == 3 && is_word(&parts[0], 0x78, 0x6f, 0x72) {
            let dest = match Self::parse_register(&parts[1]) {
                Some(d) => d,
                None => {
                    return None;
                },
            };
            let src = match Self::parse_operand(&parts[2]) {
                Some(s) => s,
                None => {
                    return None;
                },
            };
            return Some(Instruction::Xor { dest, src });
        }
        if parts.len() == 2 && is_word(&parts[0], 0x69, 0x6e, 0x74) {
            return match parse_number_exec(&parts[1], 255) {
                Some(v) => Some(Instruction::Int { interrupt: v as u8 }),
                None => None,
            };
        }
        None
    }

    /// The register that `reg` names, if any.
    pub fn parse_register(reg: &Vec<u8>) -> (r: Option<Register>)
        ensures
            r == register_of(reg@),
    {
        if is_word(reg, 0x65, 0x61, 0x78) {
            Some(Register::Eax)
        } else if is_word(reg, 0x65, 0x62, 0x78) {
            Some(Register::Ebx)
        } else {
            None
        }
    }

    /// The operand that `op` spells: a register, else a 32-bit number.
    pub fn parse_operand(op: &Vec<u8>) -> (r: Option<Operand>)
        ensures
            r == operand_of(op@),
    {
        if let Some(reg) = Self::parse_register(op) {
            return Some(Operand::Register(reg));
        }
        match parse_number_exec(op, u32::MAX) {
            Some(v) => Some(Operand::Immediate(v)),
            None => None,
        }
    }

    /// The machine code of `instruction`, if its operands have an encoding.
    pub fn encode_instruction(instruction: Instruction) -> (r: Option<Vec<u8>>)
        ensures
            r is Some <==> encoding(instruction) is Some,
            r is Some ==> r->Some_0@ == encoding(instruction)->Some_0,
    {
        match instruction {
            Instruction::Mov { dest, src } => Self::encode_mov(dest, src),
            Instruction::Xor { dest, src } => Self::encode_xor(dest, src),
            Instruction::Int { interrupt } => {
                let v = vec![0xcdu8, interrupt];
                assert(v@ =~= seq![0xcdu8, interrupt]);
                Some(v)
            },
        }
    }

    /// `mov eax, imm32`: opcode 0xb8 and the immediate, little-endian.
    pub fn encode_mov(dest: Register, src: Operand) -> (r: Option<Vec<u8>>)
        ensures
            r is Some <==> encoding(Instruction::Mov { dest, src }) is Some,
            r is Some ==> r->Some_0@ == encoding(Instruction::Mov { dest, src })->Some_0,
    {
        match (dest, src) {
            (Register::Eax, Operand::Immediate(imm)) => {
                let v = vec![
                    0xb8u8,
                    (imm % 256) as u8,
                    ((imm / 256) % 256) as u8,
                    ((imm / 65536) % 256) as u8,
                    ((imm / 16777216) % 256) as u8,
                ];
                assert(v@ =~= seq![0xb8u8] + le_bytes(imm));
                Some(v)
            },
            _ => None,
        }
    }

    /// `xor eax, eax`: 0x31 0xc0.
    pub fn encode_xor(dest: Register, src: Operand) -> (r: Option<Vec<u8>>)
        ensures
            r is Some <==> encoding(Instruction::Xor { dest, src }) is Some,
            r is Some ==> r->Some_0@ == encoding(Instruction::Xor { dest, src })->Some_0,
    {
        match (dest, src) {
            (Register::Eax, Operand::Register(Register::Eax)) => {
                let v = vec![0x31u8, 0xc0u8];
                assert(v@ =~= seq![0x31u8, 0xc0u8]);
                Some(v)
            },
            _ => None,
        }
    }
}

} // verus!
