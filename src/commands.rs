//! The commands of the interactive prompt, as plain values.

use vstd::prelude::*;

verus! {

/// One parsed line of the prompt.
#[derive(Debug)]
pub struct Cli {
    pub command: Command,
}

#[derive(Debug)]
pub enum Command {
    /// Change type of the variables we scan for
    Type(TypeArgs),
    /// PID of the process to scan the memory of
    Process(ProcessArgs),
    /// Expression by which to filter addresses
    Filter(FilterArgs),
    /// Print addresses
    Print,
    /// Add address to selected
    Select(SelectArgs),
    /// Remove address from selected
    Unselect(UnselectArgs),
    /// Set selected address to value
    SetValue(SetArgs),
    /// Freeze selected address so the value doesn't change
    Freeze(FreezeArgs),
    /// Exit the program
    Exit,
}

/// Element type of a scan.
#[derive(Debug, Clone, Copy, PartialEq, Eq, Structural)]
pub enum ValType {
    I8,
    U8,
    I16,
    U16,
    I32,
    U32,
    I64,
    U64,
    I128,
    U128,
}

impl ValType {
    /// Name of the type as written in Rust.
    pub open spec fn spec_name(self) -> Seq<char> {
        match self {
            ValType::I8 => "i8"@,
            ValType::U8 => "u8"@,
            ValType::I16 => "i16"@,
            ValType::U16 => "u16"@,
            ValType::I32 => "i32"@,
            ValType::U32 => "u32"@,
            ValType::I64 => "i64"@,
            ValType::U64 => "u64"@,
            ValType::I128 => "i128"@,
            ValType::U128 => "u128"@,
        }
    }

    pub fn name(&self) -> (r: String)
        ensures
            r@ == self.spec_name(),
    {
        match self {
            ValType::I8 => String::from_str("i8"),
            ValType::U8 => String::from_str("u8"),
            ValType::I16 => String::from_str("i16"),
            ValType::U16 => String::from_str("u16"),
            ValType::I32 => String::from_str("i32"),
            ValType::U32 => String::from_str("u32"),
            ValType::I64 => String::from_str("i64"),
            ValType::U64 => String::from_str("u64"),
            ValType::I128 => String::from_str("i128"),
            ValType::U128 => String::from_str("u128"),
        }
    }
}

#[derive(Debug, Clone, Copy)]
pub struct TypeArgs {
    pub val_type: ValType,
}

#[derive(Debug, Clone, Copy)]
pub struct ProcessArgs {
    pub pid: u32,
}

/// Operator of a `filter` command.
#[derive(Debug, Clone, Copy, PartialEq, Eq, Structural)]
pub enum FilterOperator {
    /// <
    Less,
    /// <=
    LessEqual,
    /// >
    Greater,
    /// >=
    GreaterEqual,
    /// ==
    Equal,
    /// !=
    NotEqual,
    Changed,
    NotChanged,
    Unknown,
}

#[derive(Debug, Clone)]
pub struct FilterArgs {
    pub operator: FilterOperator,
    pub operand: Option<String>,
}

#[derive(Debug, Clone, Copy)]
pub struct SelectArgs {
    pub to_select: usize,
}

#[derive(Debug, Clone, Copy)]
pub struct UnselectArgs {
    pub to_unselect: usize,
}

#[derive(Debug, Clone)]
pub struct SetArgs {
    pub selected: usize,
    pub value: String,
}

#[derive(Debug, Clone, Copy)]
pub struct FreezeArgs {
    pub selected: usize,
}

} // verus!
