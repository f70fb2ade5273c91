//! Instructions, and what the `unarm` decoder says of them.

use vstd::prelude::*;

use crate::symbols::SymbolLookup;
use crate::text::{hex, same_text};

verus! {

/// What bytes are read as.
#[derive(Clone, Copy, Debug, PartialEq, Eq, Structural)]
pub enum ParseMode {
    Arm,
    Thumb,
    Data,
}

/// A version of the ARM architecture.
#[derive(Clone, Copy, Debug, PartialEq, Eq, Structural)]
pub enum ArmVersion {
    V4T,
    V5Te,
    V6K,
}

/// How instruction codes are read.
#[derive(Clone, Copy, Debug, PartialEq, Eq, Structural)]
pub struct ParseFlags {
    /// Whether to use the unified syntax instead of the divided one.
    pub ual: bool,
    pub version: ArmVersion,
}

/// An instruction code, and how it is read.
#[derive(Clone, Copy, Debug, PartialEq, Eq, Structural)]
pub struct Ins {
    pub mode: ParseMode,
    pub code: u32,
    pub flags: ParseFlags,
}

#[derive(Clone, Copy, Debug, PartialEq, Eq, Structural)]
pub enum Register {
    Illegal,
    R0,
    R1,
    R2,
    R3,
    R4,
    R5,
    R6,
    R7,
    R8,
    R9,
    R10,
    R11,
    R12,
    Sp,
    Lr,
    Pc,
}

/// A register operand.
#[derive(Clone, Copy, Debug, PartialEq, Eq, Structural)]
pub struct Reg {
    /// Whether the register is used as a base address.
    pub deref: bool,
    pub reg: Register,
}

/// A set of registers: bit `n` stands for register `n`.
#[derive(Clone, Copy, Debug, PartialEq, Eq, Structural)]
pub struct RegList {
    pub regs: u32,
}

impl RegList {
    /// Whether the program counter, register 15, is in the set.
    pub open spec fn has_pc(self) -> bool {
        self.regs & 0x8000 != 0
    }

    /// Whether the program counter is in the set.
    pub fn contains_pc(self) -> (res: bool)
        ensures
            res == self.has_pc(),
    {
        self.regs & 0x8000 != 0
    }
}

/// An operand of an instruction. Operands that nothing here looks into are all
/// [`Argument::Other`].
#[derive(Clone, Copy, Debug, PartialEq, Eq, Structural)]
pub enum Argument {
    /// There is no operand at this place.
    Absent,
    Reg(Reg),
    RegList(RegList),
    UImm(u32),
    /// A register added to a base address.
    OffsetReg { reg: Register },
    Other,
}

/// An instruction as it is written: its full mnemonic, and its operands.
#[derive(Clone, Copy, Debug)]
pub struct ParsedIns {
    pub mnemonic: &'static str,
    pub args: [Argument; 6],
}

impl ParsedIns {
    /// Whether the decoder could not make sense of the instruction's operands.
    pub fn is_illegal(&self) -> (res: bool)
        ensures
            res == (self.mnemonic@ == "<illegal>"@),
    {
        same_text(self.mnemonic, "<illegal>")
    }
}

/// Whether the decoder knows no opcode for `ins`.
pub uninterp spec fn opcode_is_illegal(ins: Ins) -> bool;

/// The mnemonic of the opcode of `ins`, without suffixes.
pub uninterp spec fn opcode_mnemonic(ins: Ins) -> Seq<char>;

/// `unarm::Ins::is_illegal`, on the instruction that `unarm` makes of the code: an
/// answer that depends on the code, the mode and the flags alone. Data is never
/// illegal.
#[verifier::external_body]
pub(crate) fn is_illegal_opcode(ins: Ins) -> (res: bool)
    ensures
        res == opcode_is_illegal(ins),
        ins.mode is Data ==> !res,
{
    let version = match ins.flags.version {
        ArmVersion::V4T => unarm::ArmVersion::V4T,
        ArmVersion::V5Te => unarm::ArmVersion::V5Te,
        ArmVersion::V6K => unarm::ArmVersion::V6K,
    };
    let flags = unarm::ParseFlags { ual: ins.flags.ual, version };
    match ins.mode {
        ParseMode::Arm => unarm::Ins::Arm(unarm::arm::Ins::new(ins.code, &flags)),
        ParseMode::Thumb => unarm::Ins::Thumb(unarm::thumb::Ins::new(ins.code, &flags)),
        ParseMode::Data => unarm::Ins::Data,
    }.is_illegal()
}

/// `unarm::Ins::mnemonic`, on the instruction that `unarm` makes of the code: a
/// text that depends on the code, the mode and the flags alone. Data is called
/// `.word`.
#[verifier::external_body]
pub(crate) fn mnemonic_of_opcode(ins: Ins) -> (res: &'static str)
    ensures
        res@ == opcode_mnemonic(ins),
        ins.mode is Data ==> res@ == ".word"@,
{
    let version = match ins.flags.version {
        ArmVersion::V4T => unarm::ArmVersion::V4T,
        ArmVersion::V5Te => unarm::ArmVersion::V5Te,
        ArmVersion::V6K => unarm::ArmVersion::V6K,
    };
    let flags = unarm::ParseFlags { ual: ins.flags.ual, version };
    match ins.mode {
        ParseMode::Arm => unarm::Ins::Arm(unarm::arm::Ins::new(ins.code, &flags)),
        ParseMode::Thumb => unarm::Ins::Thumb(unarm::thumb::Ins::new(ins.code, &flags)),
        ParseMode::Data => unarm::Ins::Data,
    }.mnemonic()
}

/// The two bytes at `i`, low byte first.
pub open spec fn halfword_at(data: Seq<u8>, i: int) -> nat {
    (data[i] + 256 * data[i + 1]) as nat
}

/// The four bytes at `i`, low byte first.
pub open spec fn word_at(data: Seq<u8>, i: int) -> nat {
    halfword_at(data, i) + 0x10000 * halfword_at(data, i + 2)
}

/// The word at `i`.
pub fn read_word(data: &[u8], i: usize) -> (res: u32)
    requires
        i + 4 <= data@.len(),
    ensures
        res == word_at(data@, i as int),
{
    data[i] as u32 + 0x100 * (data[i + 1] as u32) + 0x10000 * (data[i + 2] as u32) + 0x1000000 * (
    data[i + 3] as u32)
}

/// Whether `code` is the first half of a Thumb `bl` or `blx`, whose second half is
/// the halfword behind it.
pub open spec fn is_half_branch(code: nat) -> bool {
    0xf000 <= code < 0xf800
}

/// An instruction taken off the front of some bytes.
pub struct Fetched {
    /// Number of bytes taken.
    pub size: nat,
    /// The instruction's code; the second half of a Thumb pair; zero for data.
    pub code: nat,
}

/// The instruction at the front of `data`, which lies at `address`, if `data`
/// holds all of it. Data is read by words, and by halfwords where bit 1 of the
/// address is set.
pub open spec fn fetch(mode: ParseMode, address: nat, data: Seq<u8>) -> Option<Fetched> {
    match mode {
        ParseMode::Arm => if data.len() >= 4 {
            Some(Fetched { size: 4, code: word_at(data, 0) })
        } else {
            None
        },
        ParseMode::Thumb => if data.len() < 2 {
            None
        } else if !is_half_branch(halfword_at(data, 0)) {
            Some(Fetched { size: 2, code: halfword_at(data, 0) })
        } else if data.len() >= 4 {
            Some(Fetched { size: 4, code: halfword_at(data, 2) })
        } else {
            None
        },
        ParseMode::Data => {
            let size: nat = if (address / 2) % 2 == 1 {
                2
            } else {
                4
            };
            if data.len() >= size {
                Some(Fetched { size, code: 0 })
            } else {
                None
            }
        },
    }
}

/// `next` of a `unarm::Parser` for little-endian ARMv5TE code at `address`: where the
/// parser is after that, and what `unarm::Ins::code` says of the instruction that it
/// made of the bytes in between.
#[verifier::external_body]
pub(crate) fn next_instruction(mode: ParseMode, address: u32, flags: ParseFlags, data: &[u8]) -> (
    res: Option<(u32, u32)>)
    requires
        address + data@.len() <= u32::MAX,
        flags.version is V5Te,
    ensures
        match res {
            Some((next, code)) => address <= next && fetch(mode, address as nat, data@) == Some(
                Fetched { size: (next - address) as nat, code: code as nat },
            ),
            None => fetch(mode, address as nat, data@) is None,
        },
{
    let version = match flags.version {
        ArmVersion::V4T => unarm::ArmVersion::V4T,
        ArmVersion::V5Te => unarm::ArmVersion::V5Te,
        ArmVersion::V6K => unarm::ArmVersion::V6K,
    };
    let mode = match mode {
        ParseMode::Arm => unarm::ParseMode::Arm,
        ParseMode::Thumb => unarm::ParseMode::Thumb,
        ParseMode::Data => unarm::ParseMode::Data,
    };
    let flags = unarm::ParseFlags { ual: flags.ual, version };
    let mut parser = unarm::Parser::new(mode, address, unarm::Endian::Little, flags, data);
    let (_, ins, _) = parser.next()?;
    Some((parser.address, ins.code()))
}

/// `n`, of which `half` is the value of the highest bit, as a signed number.
pub open spec fn signed(n: nat, half: nat) -> int {
    if n < half {
        n as int
    } else {
        n - 2 * half
    }
}

/// Whether `n` is a signed number of 32 bits.
pub open spec fn fits_i32(n: int) -> bool {
    i32::MIN <= n <= i32::MAX
}

/// What the instruction in `data` at `address` refers to, where the program
/// counter reads as `pc_load_offset` bytes ahead.
pub uninterp spec fn operand_reference(
    mode: ParseMode,
    address: u32,
    flags: ParseFlags,
    data: Seq<u8>,
    pc_load_offset: i32,
) -> Option<u32>;

/// Whether an address is so close to the middle of the address space that what an
/// instruction there refers to may be on the other side.
///
/// The decoder adds a distance to the address in signed arithmetic of 32 bits, and
/// no distance is over `2^23`.
pub open spec fn is_near_middle(address: nat) -> bool {
    0x7f80_0000 <= address < 0x8080_0000
}

/// An address far from the middle of the address space that lies at the same place
/// in its word as `address`.
pub open spec fn probe_address(address: u32) -> u32 {
    (0x4000_0000 + address % 4) as u32
}

/// Whether an instruction that refers to `probed` at the probe address for `address`
/// has its reference on the same side of the middle as `address` when it is there.
/// Both references are addresses of words.
pub open spec fn stays_on_side(address: u32, probed: Option<u32>) -> bool {
    probed matches Some(destination) ==> fits_i32(
        signed(address as nat, 0x8000_0000) + destination - probe_address(address),
    )
}

/// Whether the decoder can work out what there is to refer to at `address`. Data
/// refers to nothing, and so do many instructions. Where there is a distance, it is
/// added to the address first, and then the offset of the program counter.
pub open spec fn is_decodable(
    mode: ParseMode,
    address: u32,
    flags: ParseFlags,
    data: Seq<u8>,
    pc_load_offset: i32,
) -> bool {
    let probe = probe_address(address);
    ||| mode is Data
    ||| !is_near_middle(address as nat)
    ||| stays_on_side(address, operand_reference(mode, probe, flags, data, 0))
        && stays_on_side(address, operand_reference(mode, probe, flags, data, pc_load_offset))
}

/// `unarm::ParsedIns::pc_relative_reference` on the instruction in `data`, the
/// whole of little-endian ARMv5TE code at `address`: an answer that depends on the
/// arguments alone. Data refers to nothing.
#[verifier::external_body]
pub(crate) fn reference_of_operand(
    mode: ParseMode,
    address: u32,
    flags: ParseFlags,
    data: &[u8],
    pc_load_offset: i32,
) -> (res: Option<u32>)
    requires
        address + data@.len() <= u32::MAX,
        flags.version is V5Te,
        fetch(mode, address as nat, data@) matches Some(f) && f.size == data@.len(),
        is_decodable(mode, address, flags, data@, pc_load_offset),
        0 <= pc_load_offset <= 8,
    ensures
        res == operand_reference(mode, address, flags, data@, pc_load_offset),
        mode is Data ==> res is None,
{
    let version = match flags.version {
        ArmVersion::V4T => unarm::ArmVersion::V4T,
        ArmVersion::V5Te => unarm::ArmVersion::V5Te,
        ArmVersion::V6K => unarm::ArmVersion::V6K,
    };
    let mode = match mode {
        ParseMode::Arm => unarm::ParseMode::Arm,
        ParseMode::Thumb => unarm::ParseMode::Thumb,
        ParseMode::Data => unarm::ParseMode::Data,
    };
    let flags = unarm::ParseFlags { ual: flags.ual, version };
    let mut parser = unarm::Parser::new(mode, address, unarm::Endian::Little, flags, data);
    let (_, _, parsed) = parser.next()?;
    parsed.pc_relative_reference(address, pc_load_offset)
}

/// Whether an instruction that refers to `probed` at the probe address for `address`
/// has its reference on the same side of the middle as `address` when it is there.
pub fn keeps_side(address: u32, probed: Option<u32>) -> (res: bool)
    ensures
        res == stays_on_side(address, probed),
{
    match probed {
        None => true,
        Some(destination) => {
            let origin: i64 = if address < 0x8000_0000 {
                address as i64
            } else {
                address as i64 - 0x1_0000_0000
            };
            let sum: i64 = origin + destination as i64 - (0x4000_0000 + address % 4) as i64;
            i32::MIN as i64 <= sum && sum <= i32::MAX as i64
        },
    }
}

/// Whether the decoder can work out what the instruction in `data` at `address`
/// refers to.
pub fn can_decode(
    mode: ParseMode,
    address: u32,
    flags: ParseFlags,
    data: &[u8],
    pc_load_offset: i32,
) -> (res: bool)
    requires
        flags.version is V5Te,
        fetch(mode, address as nat, data@) matches Some(f) && f.size == data@.len(),
        0 <= pc_load_offset <= 8,
    ensures
        res == is_decodable(mode, address, flags, data@, pc_load_offset),
{
    if mode == ParseMode::Data || address < 0x7f80_0000 || address >= 0x8080_0000 {
        return true;
    }
    let probe: u32 = 0x4000_0000 + address % 4;
    let plain = reference_of_operand(mode, probe, flags, data, 0);
    let ahead = reference_of_operand(mode, probe, flags, data, pc_load_offset);
    keeps_side(address, plain) && keeps_side(address, ahead)
}

/// The names that operands at `source` are written with.
pub open spec fn operand_names(symbols: SymbolLookup, source: u32) -> Map<u32, Seq<char>> {
    Map::new(
        |destination: u32| symbols.operand_name(source, destination) is Some,
        |destination: u32| symbols.operand_name(source, destination)->0,
    )
}

/// What the instruction in `data` at `address` is written as, with `names` for what
/// it refers to, and with `ip` as the name of `r12` or without.
pub uninterp spec fn instruction_text(
    mode: ParseMode,
    address: u32,
    flags: ParseFlags,
    data: Seq<u8>,
    names: Map<u32, Seq<char>>,
    pc_load_offset: i32,
    ip: bool,
) -> Seq<char>;

/// A word or halfword that is written as data.
pub open spec fn data_text(data: Seq<u8>) -> Seq<char> {
    if data.len() == 4 {
        ".word #0x"@ + hex(word_at(data, 0))
    } else {
        ".hword #0x"@ + hex(halfword_at(data, 0))
    }
}

/// `unarm::ParsedIns::display_with_symbols` on the instruction in `data`, the whole
/// of little-endian ARMv5TE code at `address`: a text that depends on the arguments
/// alone, and of `lookup` on the names of operands at `address` alone. Data is
/// written as an immediate.
#[verifier::external_body]
pub(crate) fn text_of_instruction(
    mode: ParseMode,
    address: u32,
    flags: ParseFlags,
    data: &[u8],
    lookup: &SymbolLookup,
    pc_load_offset: i32,
    ip: bool,
) -> (res: String)
    requires
        address + data@.len() <= u32::MAX,
        flags.version is V5Te,
        fetch(mode, address as nat, data@) matches Some(f) && f.size == data@.len(),
        is_decodable(mode, address, flags, data@, pc_load_offset),
        0 <= pc_load_offset <= 8,
    ensures
        res@ == instruction_text(
            mode,
            address,
            flags,
            data@,
            operand_names(*lookup, address),
            pc_load_offset,
            ip,
        ),
        mode is Data ==> res@ == data_text(data@),
{
    let version = match flags.version {
        ArmVersion::V4T => unarm::ArmVersion::V4T,
        ArmVersion::V5Te => unarm::ArmVersion::V5Te,
        ArmVersion::V6K => unarm::ArmVersion::V6K,
    };
    let mode = match mode {
        ParseMode::Arm => unarm::ParseMode::Arm,
        ParseMode::Thumb => unarm::ParseMode::Thumb,
        ParseMode::Data => unarm::ParseMode::Data,
    };
    let flags = unarm::ParseFlags { ual: flags.ual, version };
    let next = unarm::Parser::new(mode, address, unarm::Endian::Little, flags, data).next();
    let reg_names = unarm::RegNames { ip, ..Default::default() };
    let symbols = unarm::Symbols { lookup, program_counter: address, pc_load_offset };
    next.unwrap().2.display_with_symbols(unarm::DisplayOptions { reg_names }, symbols).to_string()
}

} // verus!
