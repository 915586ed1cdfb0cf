use vstd::prelude::*;

verus! {

/// The hand that strikes a key.
#[derive(PartialEq, Eq, Structural, PartialOrd, Clone, Copy, Debug)]
pub enum Sayu {
    Right,
    Left,
}

/// The finger that strikes a key.
#[derive(PartialEq, Eq, Structural, PartialOrd, Clone, Copy, Debug)]
pub enum Yubi {
    Oya,
    Hitosashi,
    Naka,
    Kusuri,
    Ko,
}

/// The row of a key: upper, home or lower.
#[derive(PartialEq, Eq, Structural, PartialOrd, Clone, Copy, Debug)]
pub enum Dan {
    Jo,
    Chu,
    Ge,
}

/// A key: the character it types and where it sits under the hands.
#[derive(PartialEq, Eq, Structural, Clone, Copy, Debug)]
pub struct Kagi {
    pub ch: char,
    pub yubi: Yubi,
    pub dan: Dan,
    pub sayu: Sayu,
}

/// Which comfort rule judges a key against the two keys typed before it.
#[derive(PartialEq, Eq, Structural, Clone, Copy, Debug)]
pub enum Rules2 {
    Fluent,
    WnLittleFluent,
}

/// The kind of table a generation run produces.
#[derive(PartialEq, Eq, Structural, Clone, Copy, Debug)]
pub enum Table {
    Nv,
    Normal,
}

/// Parameters of a spell generation run.
#[derive(PartialEq, Eq, Structural, Clone, Copy, Debug)]
pub struct GenerateSetting {
    /// The number of levels (spell lengths) to generate.
    pub len: u8,
    /// Keep only the last level instead of every level.
    pub lenonly: bool,
    pub table: Table,
    pub rule: Rules2,
}

/// The height of a row: lower row 0, home row 1, upper row 2.
pub open spec fn row_height(d: Dan) -> nat {
    match d {
        Dan::Chu => 1,
        Dan::Ge => 0,
        Dan::Jo => 2,
    }
}

/// The height of a row as the number the rules compare.
pub fn dan_to_num(d: &Dan) -> (n: u8)
    ensures
        n == row_height(*d),
{
    match d {
        Dan::Chu => 1,
        Dan::Ge => 0,
        Dan::Jo => 2,
    }
}

} // verus!
