//! The 64 squares by name, as indices.
use vstd::prelude::*;

verus! {

pub const SQ_A1: u8 = 0;

pub const SQ_B1: u8 = 1;

pub const SQ_C1: u8 = 2;

pub const SQ_D1: u8 = 3;

pub const SQ_E1: u8 = 4;

pub const SQ_F1: u8 = 5;

pub const SQ_G1: u8 = 6;

pub const SQ_H1: u8 = 7;

pub const SQ_A2: u8 = 8;

pub const SQ_B2: u8 = 9;

pub const SQ_C2: u8 = 10;

pub const SQ_D2: u8 = 11;

pub const SQ_E2: u8 = 12;

pub const SQ_F2: u8 = 13;

pub const SQ_G2: u8 = 14;

pub const SQ_H2: u8 = 15;

pub const SQ_A3: u8 = 16;

pub const SQ_B3: u8 = 17;

pub const SQ_C3: u8 = 18;

pub const SQ_D3: u8 = 19;

pub const SQ_E3: u8 = 20;

pub const SQ_F3: u8 = 21;

pub const SQ_G3: u8 = 22;

pub const SQ_H3: u8 = 23;

pub const SQ_A4: u8 = 24;

pub const SQ_B4: u8 = 25;

pub const SQ_C4: u8 = 26;

pub const SQ_D4: u8 = 27;

pub const SQ_E4: u8 = 28;

pub const SQ_F4: u8 = 29;

pub const SQ_G4: u8 = 30;

pub const SQ_H4: u8 = 31;

pub const SQ_A5: u8 = 32;

pub const SQ_B5: u8 = 33;

pub const SQ_C5: u8 = 34;

pub const SQ_D5: u8 = 35;

pub const SQ_E5: u8 = 36;

pub const SQ_F5: u8 = 37;

pub const SQ_G5: u8 = 38;

pub const SQ_H5: u8 = 39;

pub const SQ_A6: u8 = 40;

pub const SQ_B6: u8 = 41;

pub const SQ_C6: u8 = 42;

pub const SQ_D6: u8 = 43;

pub const SQ_E6: u8 = 44;

pub const SQ_F6: u8 = 45;

pub const SQ_G6: u8 = 46;

pub const SQ_H6: u8 = 47;

pub const SQ_A7: u8 = 48;

pub const SQ_B7: u8 = 49;

pub const SQ_C7: u8 = 50;

pub const SQ_D7: u8 = 51;

pub const SQ_E7: u8 = 52;

pub const SQ_F7: u8 = 53;

pub const SQ_G7: u8 = 54;

pub const SQ_H7: u8 = 55;

pub const SQ_A8: u8 = 56;

pub const SQ_B8: u8 = 57;

pub const SQ_C8: u8 = 58;

pub const SQ_D8: u8 = 59;

pub const SQ_E8: u8 = 60;

pub const SQ_F8: u8 = 61;

pub const SQ_G8: u8 = 62;

pub const SQ_H8: u8 = 63;

} // verus!
