//! The shapes of the pattern libraries.

use vstd::prelude::*;

use super::sq::{A1, A2, A3, A4, A5, A6, A7, A8, B1, B2, B3, B4, B5, B6, B7, B8, C1, C2, C3, C4, C5, C6, C7, C8, D1, D2, D3, D4, D5, D6, D7, D8, E1, E2, E3, E4, E5, E6, E7, E8, F1, F2, F3, F4, F5, F6, F7, F8, G1, G2, G3, G4, G5, G6, G7, G8, H1, H2, H3, H4, H5, H6, H7, H8};
use super::{Pattern, library_wf, shape};

verus! {

pub const EGAROUCID_LINE2: [[u8; 8]; 4] = [
    [A2, B2, C2, D2, E2, F2, G2, H2],
    [A7, B7, C7, D7, E7, F7, G7, H7],
    [B1, B2, B3, B4, B5, B6, B7, B8],
    [G1, G2, G3, G4, G5, G6, G7, G8],
];

pub const EGAROUCID_LINE3: [[u8; 8]; 4] = [
    [A3, B3, C3, D3, E3, F3, G3, H3],
    [A6, B6, C6, D6, E6, F6, G6, H6],
    [C1, C2, C3, C4, C5, C6, C7, C8],
    [F1, F2, F3, F4, F5, F6, F7, F8],
];

pub const EGAROUCID_LINE4: [[u8; 8]; 4] = [
    [A4, B4, C4, D4, E4, F4, G4, H4],
    [A5, B5, C5, D5, E5, F5, G5, H5],
    [D1, D2, D3, D4, D5, D6, D7, D8],
    [E1, E2, E3, E4, E5, E6, E7, E8],
];

pub const EGAROUCID_CORNER3X3: [[u8; 9]; 4] = [
    [A1, B1, A2, B2, C1, A3, C2, B3, C3],
    [H1, G1, H2, G2, F1, H3, F2, G3, F3],
    [A8, A7, B8, B7, A6, C8, B6, C7, C6],
    [H8, H7, G8, G7, H6, F8, G6, F7, F6],
];

pub const EGAROUCID_DIAGONAL5: [[u8; 7]; 4] = [
    [B2, D1, E2, F3, G4, H5, G7],
    [B2, A4, B5, C6, D7, E8, G7],
    [G2, E1, D2, C3, B4, A5, B7],
    [G2, H4, G5, F6, E7, D8, B7],
];

pub const EGAROUCID_DIAGONAL6: [[u8; 9]; 4] = [
    [B1, C1, D2, E3, G2, F4, G5, H6, H7],
    [A2, A3, B4, C5, B7, D6, E7, F8, G8],
    [G1, F1, E2, D3, B2, C4, B5, A6, A7],
    [H2, H3, G4, F5, G7, E6, D7, C8, B8],
];

pub const EGAROUCID_DIAGONAL7: [[u8; 9]; 4] = [
    [A1, B1, C2, D3, E4, F5, G6, H7, H8],
    [H1, H2, G3, F4, E5, D6, C7, B8, A8],
    [A1, A2, B3, C4, D5, E6, F7, G8, H8],
    [H1, G1, F2, E3, D4, C5, B6, A7, A8],
];

pub const EGAROUCID_DIAGONAL8_2C: [[u8; 10]; 4] = [
    [A1, B2, C3, D4, E5, F6, G7, H8, A2, B1],
    [A8, B7, C6, D5, E4, F3, G2, H1, B8, A7],
    [H8, G7, F6, E5, D4, C3, B2, A1, H7, G8],
    [H1, G2, F3, E4, D5, C6, B7, A8, G1, H2],
];

pub const EGAROUCID_EDGE_2X: [[u8; 10]; 4] = [
    [B2, A1, B1, C1, D1, E1, F1, G1, H1, G2],
    [B7, A8, B8, C8, D8, E8, F8, G8, H8, G7],
    [B2, A1, A2, A3, A4, A5, A6, A7, A8, B7],
    [G2, H1, H2, H3, H4, H5, H6, H7, H8, G7],
];

pub const EGAROUCID_TRIANGLE: [[u8; 10]; 4] = [
    [A1, A2, B1, A3, B2, C1, A4, B3, C2, D1],
    [H1, G1, H2, F1, G2, H3, E1, F2, G3, H4],
    [H8, H7, G8, H6, G7, F8, H5, G6, F7, E8],
    [A8, B8, A7, C8, B7, A6, D8, C7, B6, A5],
];

pub const EGAROUCID_CORNER_BLOCK: [[u8; 10]; 4] = [
    [A1, C1, D1, C2, D2, E2, F2, E1, F1, H1],
    [H1, H3, H4, G3, G4, G5, G6, H5, H6, H8],
    [H8, F8, E8, F7, E7, D7, C7, D8, C8, A8],
    [A8, A6, A5, B6, B5, B4, B3, A4, A3, A1],
];

pub const EGAROUCID_CROSS: [[u8; 10]; 4] = [
    [A1, B2, C3, D4, B1, C2, D3, A2, B3, C4],
    [H1, G2, F3, E4, G1, F2, E3, H2, G3, F4],
    [A8, B7, C6, D5, B8, C7, D6, A7, B6, C5],
    [H8, G7, F6, E5, G8, F7, E6, H7, G6, F5],
];

pub const EGAROUCID_EDGE_Y: [[u8; 10]; 4] = [
    [C2, A1, B1, C1, D1, E1, F1, G1, H1, F2],
    [C7, A8, B8, C8, D8, E8, F8, G8, H8, F7],
    [B3, A1, A2, A3, A4, A5, A6, A7, A8, B6],
    [G3, H1, H2, H3, H4, H5, H6, H7, H8, G6],
];

pub const EGAROUCID_NARROW_TRIANGLE: [[u8; 10]; 4] = [
    [A1, B1, C1, D1, E1, A2, B2, A3, A4, A5],
    [H1, G1, F1, E1, D1, H2, G2, H3, H4, H5],
    [A8, B8, C8, D8, E8, A7, B7, A6, A5, A4],
    [H8, G8, F8, E8, D8, H7, G7, H6, H5, H4],
];

pub const EGAROUCID_FISH: [[u8; 10]; 4] = [
    [A1, B1, A2, B2, C2, D2, B3, C3, B4, D4],
    [H1, G1, H2, G2, F2, E2, G3, F3, G4, E4],
    [A8, B8, A7, B7, C7, D7, B6, C6, B5, D5],
    [H8, G8, H7, G7, F7, E7, G6, F6, G5, E5],
];

pub const EGAROUCID_ANVIL: [[u8; 10]; 4] = [
    [C6, D6, D7, D8, C8, F8, E8, E7, E6, F6],
    [C3, C4, B4, A4, A3, A6, A5, B5, C5, C6],
    [F3, E3, E2, E1, F1, C1, D1, D2, D3, C3],
    [F6, F5, G5, H5, H6, H3, H4, G4, F4, F3],
];

pub const EDAX_CORNER3X3: [[u8; 9]; 4] = [
    [A1, B1, A2, B2, C1, A3, C2, B3, C3],
    [H1, G1, H2, G2, F1, H3, F2, G3, F3],
    [A8, A7, B8, B7, A6, C8, B6, C7, C6],
    [H8, H7, G8, G7, H6, F8, G6, F7, F6],
];

pub const EDAX_ANGLE_X: [[u8; 10]; 4] = [
    [A5, A4, A3, A2, A1, B2, B1, C1, D1, E1],
    [H5, H4, H3, H2, H1, G2, G1, F1, E1, D1],
    [A4, A5, A6, A7, A8, B7, B8, C8, D8, E8],
    [H4, H5, H6, H7, H8, G7, G8, F8, E8, D8],
];

pub const EDAX_EDGE_2X: [[u8; 10]; 4] = [
    [B2, A1, B1, C1, D1, E1, F1, G1, H1, G2],
    [B7, A8, B8, C8, D8, E8, F8, G8, H8, G7],
    [B2, A1, A2, A3, A4, A5, A6, A7, A8, B7],
    [G2, H1, H2, H3, H4, H5, H6, H7, H8, G7],
];

pub const EDAX_CORNER_BLOCK: [[u8; 10]; 4] = [
    [A1, C1, D1, C2, D2, E2, F2, E1, F1, H1],
    [A8, C8, D8, C7, D7, E7, F7, E8, F8, H8],
    [A1, A3, A4, B3, B4, B5, B6, A5, A6, A8],
    [H1, H3, H4, G3, G4, G5, G6, H5, H6, H8],
];

pub const EDAX_LINE2: [[u8; 8]; 4] = [
    [A2, B2, C2, D2, E2, F2, G2, H2],
    [A7, B7, C7, D7, E7, F7, G7, H7],
    [B1, B2, B3, B4, B5, B6, B7, B8],
    [G1, G2, G3, G4, G5, G6, G7, G8],
];

pub const EDAX_LINE3: [[u8; 8]; 4] = [
    [A3, B3, C3, D3, E3, F3, G3, H3],
    [A6, B6, C6, D6, E6, F6, G6, H6],
    [C1, C2, C3, C4, C5, C6, C7, C8],
    [F1, F2, F3, F4, F5, F6, F7, F8],
];

pub const EDAX_LINE4: [[u8; 8]; 4] = [
    [A4, B4, C4, D4, E4, F4, G4, H4],
    [A5, B5, C5, D5, E5, F5, G5, H5],
    [D1, D2, D3, D4, D5, D6, D7, D8],
    [E1, E2, E3, E4, E5, E6, E7, E8],
];

pub const EDAX_DIAGONAL8: [[u8; 8]; 2] = [
    [A1, B2, C3, D4, E5, F6, G7, H8],
    [A8, B7, C6, D5, E4, F3, G2, H1],
];

pub const EDAX_DIAGONAL7: [[u8; 7]; 4] = [
    [B1, C2, D3, E4, F5, G6, H7],
    [H2, G3, F4, E5, D6, C7, B8],
    [A2, B3, C4, D5, E6, F7, G8],
    [G1, F2, E3, D4, C5, B6, A7],
];

pub const EDAX_DIAGONAL6: [[u8; 6]; 4] = [
    [C1, D2, E3, F4, G5, H6],
    [A3, B4, C5, D6, E7, F8],
    [F1, E2, D3, C4, B5, A6],
    [H3, G4, F5, E6, D7, C8],
];

pub const EDAX_DIAGONAL5: [[u8; 5]; 4] = [
    [D1, E2, F3, G4, H5],
    [A4, B5, C6, D7, E8],
    [E1, D2, C3, B4, A5],
    [H4, G5, F6, E7, D8],
];

pub const EDAX_DIAGONAL4: [[u8; 4]; 4] = [
    [D1, C2, B3, A4],
    [A5, B6, C7, D8],
    [E1, F2, G3, H4],
    [H5, G6, F7, E8],
];

pub const COMPACT_INNER2X4: [[u8; 8]; 4] = [
    [C2, D2, E2, F2, C3, D3, E3, F3],
    [C7, D7, E7, F7, C6, D6, E6, F6],
    [B3, B4, B5, B6, C3, C4, C5, C6],
    [G3, G4, G5, G6, F3, F4, F5, F6],
];

pub const COMPACT_DIAGONAL8: [[u8; 8]; 2] = [
    [A1, B2, C3, D4, E5, F6, G7, H8],
    [H1, G2, F3, E4, D5, C6, B7, A8],
];

pub const COMPACT_CENTER2X4: [[u8; 8]; 2] = [
    [C4, D4, E4, F4, C5, D5, E5, F5],
    [D3, E3, D4, E4, D5, E5, D6, E6],
];

pub const COMPACT_LINE1: [[u8; 8]; 4] = [
    [A1, B1, C1, D1, E1, F1, G1, H1],
    [A8, B8, C8, D8, E8, F8, G8, H8],
    [A1, A2, A3, A4, A5, A6, A7, A8],
    [H1, H2, H3, H4, H5, H6, H7, H8],
];

pub const COMPACT_EDGE2X4: [[u8; 8]; 8] = [
    [B1, C1, D1, E1, B2, C2, D2, E2],
    [G1, F1, E1, D1, G2, F2, E2, D2],
    [B8, C8, D8, E8, B7, C7, D7, E7],
    [G8, F8, E8, D8, G7, F7, E7, D7],
    [A2, A3, A4, A5, B2, B3, B4, B5],
    [A7, A6, A5, A4, B7, B6, B5, B4],
    [H2, H3, H4, H5, G2, G3, G4, G5],
    [H7, H6, H5, H4, G7, G6, G5, G4],
];

pub const COMPACT_CORNER3X3: [[u8; 9]; 4] = [
    [A1, B1, C1, A2, B2, C2, A3, B3, C3],
    [H1, G1, F1, H2, G2, F2, H3, G3, F3],
    [A8, B8, C8, A7, B7, C7, A6, B6, C6],
    [H8, G8, F8, H7, G7, F7, H6, G6, F6],
];

pub const COMPACT_CENTER3X3: [[u8; 9]; 4] = [
    [B2, C2, D2, B3, C3, D3, B4, C4, D4],
    [G2, F2, E2, G3, F3, E3, G4, F4, E4],
    [B7, C7, D7, B6, C6, D6, B5, C5, D5],
    [G7, F7, E7, G6, F6, E6, G5, F5, E5],
];

pub const COMPACT_DIAGONAL7: [[u8; 7]; 4] = [
    [B1, C2, D3, E4, F5, G6, H7],
    [A2, B3, C4, D5, E6, F7, G8],
    [G1, F2, E3, D4, C5, B6, A7],
    [H2, G3, F4, E5, D6, C7, B8],
];

pub const NNUE_INNERTOP: [[u8; 8]; 1] = [
    [C2, D2, E2, F2, C3, D3, E3, F3],
];

pub const NNUE_INNERBOTTOM: [[u8; 8]; 1] = [
    [C7, D7, E7, F7, C6, D6, E6, F6],
];

pub const NNUE_INNERLEFT: [[u8; 8]; 1] = [
    [B3, B4, B5, B6, C3, C4, C5, C6],
];

pub const NNUE_INNERRIGHT: [[u8; 8]; 1] = [
    [G3, G4, G5, G6, F3, F4, F5, F6],
];

pub const NNUE_DIAGA1H8: [[u8; 8]; 1] = [
    [A1, B2, C3, D4, E5, F6, G7, H8],
];

pub const NNUE_DIAGH1A8: [[u8; 8]; 1] = [
    [H1, G2, F3, E4, D5, C6, B7, A8],
];

pub const NNUE_CENTER2X4H: [[u8; 8]; 1] = [
    [C4, D4, E4, F4, C5, D5, E5, F5],
];

pub const NNUE_CENTER2X4V: [[u8; 8]; 1] = [
    [D3, E3, D4, E4, D5, E5, D6, E6],
];

pub const NNUE_ROW1: [[u8; 8]; 1] = [
    [A1, B1, C1, D1, E1, F1, G1, H1],
];

pub const NNUE_ROW8: [[u8; 8]; 1] = [
    [A8, B8, C8, D8, E8, F8, G8, H8],
];

pub const NNUE_COLA: [[u8; 8]; 1] = [
    [A1, A2, A3, A4, A5, A6, A7, A8],
];

pub const NNUE_COLH: [[u8; 8]; 1] = [
    [H1, H2, H3, H4, H5, H6, H7, H8],
];

pub const NNUE_EDGETOP: [[u8; 8]; 1] = [
    [B1, C1, D1, E1, B2, C2, D2, E2],
];

pub const NNUE_EDGETOPMIRROR: [[u8; 8]; 1] = [
    [G1, F1, E1, D1, G2, F2, E2, D2],
];

pub const NNUE_EDGEBOTTOM: [[u8; 8]; 1] = [
    [B8, C8, D8, E8, B7, C7, D7, E7],
];

pub const NNUE_EDGEBOTTOMMIRROR: [[u8; 8]; 1] = [
    [G8, F8, E8, D8, G7, F7, E7, D7],
];

pub const NNUE_EDGELEFT: [[u8; 8]; 1] = [
    [A2, A3, A4, A5, B2, B3, B4, B5],
];

pub const NNUE_EDGELEFTMIRROR: [[u8; 8]; 1] = [
    [A7, A6, A5, A4, B7, B6, B5, B4],
];

pub const NNUE_EDGERIGHT: [[u8; 8]; 1] = [
    [H2, H3, H4, H5, G2, G3, G4, G5],
];

pub const NNUE_EDGERIGHTMIRROR: [[u8; 8]; 1] = [
    [H7, H6, H5, H4, G7, G6, G5, G4],
];

pub const NNUE_CORNERA1: [[u8; 9]; 1] = [
    [A1, B1, C1, A2, B2, C2, A3, B3, C3],
];

pub const NNUE_CORNERH1: [[u8; 9]; 1] = [
    [H1, G1, F1, H2, G2, F2, H3, G3, F3],
];

pub const NNUE_CORNERA8: [[u8; 9]; 1] = [
    [A8, B8, C8, A7, B7, C7, A6, B6, C6],
];

pub const NNUE_CORNERH8: [[u8; 9]; 1] = [
    [H8, G8, F8, H7, G7, F7, H6, G6, F6],
];

pub const NNUE_CENTER3X3NW: [[u8; 9]; 1] = [
    [B2, C2, D2, B3, C3, D3, B4, C4, D4],
];

pub const NNUE_CENTER3X3NE: [[u8; 9]; 1] = [
    [G2, F2, E2, G3, F3, E3, G4, F4, E4],
];

pub const NNUE_CENTER3X3SW: [[u8; 9]; 1] = [
    [B7, C7, D7, B6, C6, D6, B5, C5, D5],
];

pub const NNUE_CENTER3X3SE: [[u8; 9]; 1] = [
    [G7, F7, E7, G6, F6, E6, G5, F5, E5],
];

pub const NNUE_DIAGB1H7: [[u8; 7]; 1] = [
    [B1, C2, D3, E4, F5, G6, H7],
];

pub const NNUE_DIAGA2G8: [[u8; 7]; 1] = [
    [A2, B3, C4, D5, E6, F7, G8],
];

pub const NNUE_DIAGG1A7: [[u8; 7]; 1] = [
    [G1, F2, E3, D4, C5, B6, A7],
];

pub const NNUE_DIAGH2B8: [[u8; 7]; 1] = [
    [H2, G3, F4, E5, D6, C7, B8],
];

/// The Egaroucid shapes.
pub open spec fn is_egaroucid(v: Seq<Pattern>) -> bool {
    &&& v.len() == 16
    &&& v[0].shows("Line2"@, EGAROUCID_LINE2)
    &&& v[1].shows("Line3"@, EGAROUCID_LINE3)
    &&& v[2].shows("Line4"@, EGAROUCID_LINE4)
    &&& v[3].shows("Corner3x3"@, EGAROUCID_CORNER3X3)
    &&& v[4].shows("Diagonal5"@, EGAROUCID_DIAGONAL5)
    &&& v[5].shows("Diagonal6"@, EGAROUCID_DIAGONAL6)
    &&& v[6].shows("Diagonal7"@, EGAROUCID_DIAGONAL7)
    &&& v[7].shows("Diagonal8+2C"@, EGAROUCID_DIAGONAL8_2C)
    &&& v[8].shows("Edge+2x"@, EGAROUCID_EDGE_2X)
    &&& v[9].shows("Triangle"@, EGAROUCID_TRIANGLE)
    &&& v[10].shows("Corner + Block"@, EGAROUCID_CORNER_BLOCK)
    &&& v[11].shows("Cross"@, EGAROUCID_CROSS)
    &&& v[12].shows("Edge+Y"@, EGAROUCID_EDGE_Y)
    &&& v[13].shows("Narrow Triangle"@, EGAROUCID_NARROW_TRIANGLE)
    &&& v[14].shows("Fish"@, EGAROUCID_FISH)
    &&& v[15].shows("Anvil"@, EGAROUCID_ANVIL)
}

/// The Egaroucid shapes.
pub fn egaroucid_patterns() -> (v: Vec<Pattern>)
    ensures
        is_egaroucid(v@),
        library_wf(v@),
{
    let mut v: Vec<Pattern> = Vec::new();
    v.push(shape("Line2", EGAROUCID_LINE2));
    v.push(shape("Line3", EGAROUCID_LINE3));
    v.push(shape("Line4", EGAROUCID_LINE4));
    v.push(shape("Corner3x3", EGAROUCID_CORNER3X3));
    v.push(shape("Diagonal5", EGAROUCID_DIAGONAL5));
    v.push(shape("Diagonal6", EGAROUCID_DIAGONAL6));
    v.push(shape("Diagonal7", EGAROUCID_DIAGONAL7));
    v.push(shape("Diagonal8+2C", EGAROUCID_DIAGONAL8_2C));
    v.push(shape("Edge+2x", EGAROUCID_EDGE_2X));
    v.push(shape("Triangle", EGAROUCID_TRIANGLE));
    v.push(shape("Corner + Block", EGAROUCID_CORNER_BLOCK));
    v.push(shape("Cross", EGAROUCID_CROSS));
    v.push(shape("Edge+Y", EGAROUCID_EDGE_Y));
    v.push(shape("Narrow Triangle", EGAROUCID_NARROW_TRIANGLE));
    v.push(shape("Fish", EGAROUCID_FISH));
    v.push(shape("Anvil", EGAROUCID_ANVIL));
    v
}

/// Eight of the Egaroucid shapes that still cover the board: half the row
/// reads, to pair with a wider accumulator.
pub open spec fn is_wide8(v: Seq<Pattern>) -> bool {
    &&& v.len() == 8
    &&& v[0].shows("Line2"@, EGAROUCID_LINE2)
    &&& v[1].shows("Line3"@, EGAROUCID_LINE3)
    &&& v[2].shows("Line4"@, EGAROUCID_LINE4)
    &&& v[3].shows("Corner3x3"@, EGAROUCID_CORNER3X3)
    &&& v[4].shows("Diagonal8+2C"@, EGAROUCID_DIAGONAL8_2C)
    &&& v[5].shows("Edge+2x"@, EGAROUCID_EDGE_2X)
    &&& v[6].shows("Corner + Block"@, EGAROUCID_CORNER_BLOCK)
    &&& v[7].shows("Cross"@, EGAROUCID_CROSS)
}

/// Eight of the Egaroucid shapes that still cover the board: half the row
/// reads, to pair with a wider accumulator.
pub fn wide8_patterns() -> (v: Vec<Pattern>)
    ensures
        is_wide8(v@),
        library_wf(v@),
{
    let mut v: Vec<Pattern> = Vec::new();
    v.push(shape("Line2", EGAROUCID_LINE2));
    v.push(shape("Line3", EGAROUCID_LINE3));
    v.push(shape("Line4", EGAROUCID_LINE4));
    v.push(shape("Corner3x3", EGAROUCID_CORNER3X3));
    v.push(shape("Diagonal8+2C", EGAROUCID_DIAGONAL8_2C));
    v.push(shape("Edge+2x", EGAROUCID_EDGE_2X));
    v.push(shape("Corner + Block", EGAROUCID_CORNER_BLOCK));
    v.push(shape("Cross", EGAROUCID_CROSS));
    v
}

/// The Edax shapes.
pub open spec fn is_edax(v: Seq<Pattern>) -> bool {
    &&& v.len() == 12
    &&& v[0].shows("Corner3x3"@, EDAX_CORNER3X3)
    &&& v[1].shows("Angle+X"@, EDAX_ANGLE_X)
    &&& v[2].shows("Edge+2x"@, EDAX_EDGE_2X)
    &&& v[3].shows("Corner+Block"@, EDAX_CORNER_BLOCK)
    &&& v[4].shows("Line2"@, EDAX_LINE2)
    &&& v[5].shows("Line3"@, EDAX_LINE3)
    &&& v[6].shows("Line4"@, EDAX_LINE4)
    &&& v[7].shows("Diagonal8"@, EDAX_DIAGONAL8)
    &&& v[8].shows("Diagonal7"@, EDAX_DIAGONAL7)
    &&& v[9].shows("Diagonal6"@, EDAX_DIAGONAL6)
    &&& v[10].shows("Diagonal5"@, EDAX_DIAGONAL5)
    &&& v[11].shows("Diagonal4"@, EDAX_DIAGONAL4)
}

/// The Edax shapes.
pub fn edax_patterns() -> (v: Vec<Pattern>)
    ensures
        is_edax(v@),
        library_wf(v@),
{
    let mut v: Vec<Pattern> = Vec::new();
    v.push(shape("Corner3x3", EDAX_CORNER3X3));
    v.push(shape("Angle+X", EDAX_ANGLE_X));
    v.push(shape("Edge+2x", EDAX_EDGE_2X));
    v.push(shape("Corner+Block", EDAX_CORNER_BLOCK));
    v.push(shape("Line2", EDAX_LINE2));
    v.push(shape("Line3", EDAX_LINE3));
    v.push(shape("Line4", EDAX_LINE4));
    v.push(shape("Diagonal8", EDAX_DIAGONAL8));
    v.push(shape("Diagonal7", EDAX_DIAGONAL7));
    v.push(shape("Diagonal6", EDAX_DIAGONAL6));
    v.push(shape("Diagonal5", EDAX_DIAGONAL5));
    v.push(shape("Diagonal4", EDAX_DIAGONAL4));
    v
}

/// The Egaroucid shapes and the two Edax shapes that they lack.
pub open spec fn is_egaroucid_plus(v: Seq<Pattern>) -> bool {
    &&& v.len() == 18
    &&& v[0].shows("Line2"@, EGAROUCID_LINE2)
    &&& v[1].shows("Line3"@, EGAROUCID_LINE3)
    &&& v[2].shows("Line4"@, EGAROUCID_LINE4)
    &&& v[3].shows("Corner3x3"@, EGAROUCID_CORNER3X3)
    &&& v[4].shows("Diagonal5"@, EGAROUCID_DIAGONAL5)
    &&& v[5].shows("Diagonal6"@, EGAROUCID_DIAGONAL6)
    &&& v[6].shows("Diagonal7"@, EGAROUCID_DIAGONAL7)
    &&& v[7].shows("Diagonal8+2C"@, EGAROUCID_DIAGONAL8_2C)
    &&& v[8].shows("Edge+2x"@, EGAROUCID_EDGE_2X)
    &&& v[9].shows("Triangle"@, EGAROUCID_TRIANGLE)
    &&& v[10].shows("Corner + Block"@, EGAROUCID_CORNER_BLOCK)
    &&& v[11].shows("Cross"@, EGAROUCID_CROSS)
    &&& v[12].shows("Edge+Y"@, EGAROUCID_EDGE_Y)
    &&& v[13].shows("Narrow Triangle"@, EGAROUCID_NARROW_TRIANGLE)
    &&& v[14].shows("Fish"@, EGAROUCID_FISH)
    &&& v[15].shows("Anvil"@, EGAROUCID_ANVIL)
    &&& v[16].shows("Angle+X"@, EDAX_ANGLE_X)
    &&& v[17].shows("Diagonal4"@, EDAX_DIAGONAL4)
}

/// The Egaroucid shapes and the two Edax shapes that they lack.
pub fn egaroucid_plus_patterns() -> (v: Vec<Pattern>)
    ensures
        is_egaroucid_plus(v@),
        library_wf(v@),
{
    let mut v: Vec<Pattern> = Vec::new();
    v.push(shape("Line2", EGAROUCID_LINE2));
    v.push(shape("Line3", EGAROUCID_LINE3));
    v.push(shape("Line4", EGAROUCID_LINE4));
    v.push(shape("Corner3x3", EGAROUCID_CORNER3X3));
    v.push(shape("Diagonal5", EGAROUCID_DIAGONAL5));
    v.push(shape("Diagonal6", EGAROUCID_DIAGONAL6));
    v.push(shape("Diagonal7", EGAROUCID_DIAGONAL7));
    v.push(shape("Diagonal8+2C", EGAROUCID_DIAGONAL8_2C));
    v.push(shape("Edge+2x", EGAROUCID_EDGE_2X));
    v.push(shape("Triangle", EGAROUCID_TRIANGLE));
    v.push(shape("Corner + Block", EGAROUCID_CORNER_BLOCK));
    v.push(shape("Cross", EGAROUCID_CROSS));
    v.push(shape("Edge+Y", EGAROUCID_EDGE_Y));
    v.push(shape("Narrow Triangle", EGAROUCID_NARROW_TRIANGLE));
    v.push(shape("Fish", EGAROUCID_FISH));
    v.push(shape("Anvil", EGAROUCID_ANVIL));
    v.push(shape("Angle+X", EDAX_ANGLE_X));
    v.push(shape("Diagonal4", EDAX_DIAGONAL4));
    v
}

/// A smaller library: no shape is wider than nine squares.
pub open spec fn is_compact(v: Seq<Pattern>) -> bool {
    &&& v.len() == 8
    &&& v[0].shows("Inner2x4"@, COMPACT_INNER2X4)
    &&& v[1].shows("Diagonal8"@, COMPACT_DIAGONAL8)
    &&& v[2].shows("Center2x4"@, COMPACT_CENTER2X4)
    &&& v[3].shows("Line1"@, COMPACT_LINE1)
    &&& v[4].shows("Edge2x4"@, COMPACT_EDGE2X4)
    &&& v[5].shows("Corner3x3"@, COMPACT_CORNER3X3)
    &&& v[6].shows("Center3x3"@, COMPACT_CENTER3X3)
    &&& v[7].shows("Diagonal7"@, COMPACT_DIAGONAL7)
}

/// A smaller library: no shape is wider than nine squares.
pub fn compact_patterns() -> (v: Vec<Pattern>)
    ensures
        is_compact(v@),
        library_wf(v@),
{
    let mut v: Vec<Pattern> = Vec::new();
    v.push(shape("Inner2x4", COMPACT_INNER2X4));
    v.push(shape("Diagonal8", COMPACT_DIAGONAL8));
    v.push(shape("Center2x4", COMPACT_CENTER2X4));
    v.push(shape("Line1", COMPACT_LINE1));
    v.push(shape("Edge2x4", COMPACT_EDGE2X4));
    v.push(shape("Corner3x3", COMPACT_CORNER3X3));
    v.push(shape("Center3x3", COMPACT_CENTER3X3));
    v.push(shape("Diagonal7", COMPACT_DIAGONAL7));
    v
}

/// A library in which every orientation is a shape of its own.
pub open spec fn is_nnue(v: Seq<Pattern>) -> bool {
    &&& v.len() == 32
    &&& v[0].shows("InnerTop"@, NNUE_INNERTOP)
    &&& v[1].shows("InnerBottom"@, NNUE_INNERBOTTOM)
    &&& v[2].shows("InnerLeft"@, NNUE_INNERLEFT)
    &&& v[3].shows("InnerRight"@, NNUE_INNERRIGHT)
    &&& v[4].shows("DiagA1H8"@, NNUE_DIAGA1H8)
    &&& v[5].shows("DiagH1A8"@, NNUE_DIAGH1A8)
    &&& v[6].shows("Center2x4H"@, NNUE_CENTER2X4H)
    &&& v[7].shows("Center2x4V"@, NNUE_CENTER2X4V)
    &&& v[8].shows("Row1"@, NNUE_ROW1)
    &&& v[9].shows("Row8"@, NNUE_ROW8)
    &&& v[10].shows("ColA"@, NNUE_COLA)
    &&& v[11].shows("ColH"@, NNUE_COLH)
    &&& v[12].shows("EdgeTop"@, NNUE_EDGETOP)
    &&& v[13].shows("EdgeTopMirror"@, NNUE_EDGETOPMIRROR)
    &&& v[14].shows("EdgeBottom"@, NNUE_EDGEBOTTOM)
    &&& v[15].shows("EdgeBottomMirror"@, NNUE_EDGEBOTTOMMIRROR)
    &&& v[16].shows("EdgeLeft"@, NNUE_EDGELEFT)
    &&& v[17].shows("EdgeLeftMirror"@, NNUE_EDGELEFTMIRROR)
    &&& v[18].shows("EdgeRight"@, NNUE_EDGERIGHT)
    &&& v[19].shows("EdgeRightMirror"@, NNUE_EDGERIGHTMIRROR)
    &&& v[20].shows("CornerA1"@, NNUE_CORNERA1)
    &&& v[21].shows("CornerH1"@, NNUE_CORNERH1)
    &&& v[22].shows("CornerA8"@, NNUE_CORNERA8)
    &&& v[23].shows("CornerH8"@, NNUE_CORNERH8)
    &&& v[24].shows("Center3x3NW"@, NNUE_CENTER3X3NW)
    &&& v[25].shows("Center3x3NE"@, NNUE_CENTER3X3NE)
    &&& v[26].shows("Center3x3SW"@, NNUE_CENTER3X3SW)
    &&& v[27].shows("Center3x3SE"@, NNUE_CENTER3X3SE)
    &&& v[28].shows("DiagB1H7"@, NNUE_DIAGB1H7)
    &&& v[29].shows("DiagA2G8"@, NNUE_DIAGA2G8)
    &&& v[30].shows("DiagG1A7"@, NNUE_DIAGG1A7)
    &&& v[31].shows("DiagH2B8"@, NNUE_DIAGH2B8)
}

/// A library in which every orientation is a shape of its own.
pub fn nnue_patterns() -> (v: Vec<Pattern>)
    ensures
        is_nnue(v@),
        library_wf(v@),
{
    let mut v: Vec<Pattern> = Vec::new();
    v.push(shape("InnerTop", NNUE_INNERTOP));
    v.push(shape("InnerBottom", NNUE_INNERBOTTOM));
    v.push(shape("InnerLeft", NNUE_INNERLEFT));
    v.push(shape("InnerRight", NNUE_INNERRIGHT));
    v.push(shape("DiagA1H8", NNUE_DIAGA1H8));
    v.push(shape("DiagH1A8", NNUE_DIAGH1A8));
    v.push(shape("Center2x4H", NNUE_CENTER2X4H));
    v.push(shape("Center2x4V", NNUE_CENTER2X4V));
    v.push(shape("Row1", NNUE_ROW1));
    v.push(shape("Row8", NNUE_ROW8));
    v.push(shape("ColA", NNUE_COLA));
    v.push(shape("ColH", NNUE_COLH));
    v.push(shape("EdgeTop", NNUE_EDGETOP));
    v.push(shape("EdgeTopMirror", NNUE_EDGETOPMIRROR));
    v.push(shape("EdgeBottom", NNUE_EDGEBOTTOM));
    v.push(shape("EdgeBottomMirror", NNUE_EDGEBOTTOMMIRROR));
    v.push(shape("EdgeLeft", NNUE_EDGELEFT));
    v.push(shape("EdgeLeftMirror", NNUE_EDGELEFTMIRROR));
    v.push(shape("EdgeRight", NNUE_EDGERIGHT));
    v.push(shape("EdgeRightMirror", NNUE_EDGERIGHTMIRROR));
    v.push(shape("CornerA1", NNUE_CORNERA1));
    v.push(shape("CornerH1", NNUE_CORNERH1));
    v.push(shape("CornerA8", NNUE_CORNERA8));
    v.push(shape("CornerH8", NNUE_CORNERH8));
    v.push(shape("Center3x3NW", NNUE_CENTER3X3NW));
    v.push(shape("Center3x3NE", NNUE_CENTER3X3NE));
    v.push(shape("Center3x3SW", NNUE_CENTER3X3SW));
    v.push(shape("Center3x3SE", NNUE_CENTER3X3SE));
    v.push(shape("DiagB1H7", NNUE_DIAGB1H7));
    v.push(shape("DiagA2G8", NNUE_DIAGA2G8));
    v.push(shape("DiagG1A7", NNUE_DIAGG1A7));
    v.push(shape("DiagH2B8", NNUE_DIAGH2B8));
    v
}

} // verus!
