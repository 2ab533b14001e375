//! The static Huffman code of HPACK (RFC 7541 Appendix B).

use super::qpack::QpackError;
use vstd::arithmetic::power2::{lemma2_to64, lemma_pow2_pos, lemma_pow2_unfold, pow2};
use vstd::prelude::*;

verus! {

/// The code of each symbol, as `(symbol, code, length in bits)`. The code word is
/// the low `length` bits of `code`, sent most significant bit first.
pub const HUFFMAN_CODES: [(u16, u32, u8); 257] = [
    (0, 0x1ff8, 13),
    (1, 0x7fffd8, 23),
    (2, 0xfffffe2, 28),
    (3, 0xfffffe3, 28),
    (4, 0xfffffe4, 28),
    (5, 0xfffffe5, 28),
    (6, 0xfffffe6, 28),
    (7, 0xfffffe7, 28),
    (8, 0xfffffe8, 28),
    (9, 0xffffea, 24),
    (10, 0x3ffffffc, 30),
    (11, 0xfffffe9, 28),
    (12, 0xfffffea, 28),
    (13, 0x3ffffffd, 30),
    (14, 0xfffffeb, 28),
    (15, 0xfffffec, 28),
    (16, 0xfffffed, 28),
    (17, 0xfffffee, 28),
    (18, 0xfffffef, 28),
    (19, 0xfffffff0, 28),
    (20, 0xfffffff1, 28),
    (21, 0xfffffff2, 28),
    (22, 0x3ffffffe, 30),
    (23, 0xfffffff3, 28),
    (24, 0xfffffff4, 28),
    (25, 0xfffffff5, 28),
    (26, 0xfffffff6, 28),
    (27, 0xfffffff7, 28),
    (28, 0xfffffff8, 28),
    (29, 0xfffffff9, 28),
    (30, 0xfffffffa, 28),
    (31, 0xfffffffb, 28),
    (32, 0x14, 6),
    (33, 0x3f8, 10),
    (34, 0x3f9, 10),
    (35, 0xffa, 12),
    (36, 0x1ff9, 13),
    (37, 0x15, 6),
    (38, 0xf8, 8),
    (39, 0x7fa, 11),
    (40, 0x3fa, 10),
    (41, 0x3fb, 10),
    (42, 0xf9, 8),
    (43, 0x7fb, 11),
    (44, 0xfa, 8),
    (45, 0x16, 6),
    (46, 0x17, 6),
    (47, 0x18, 6),
    (48, 0x0, 5),
    (49, 0x1, 5),
    (50, 0x2, 5),
    (51, 0x19, 6),
    (52, 0x1a, 6),
    (53, 0x1b, 6),
    (54, 0x1c, 6),
    (55, 0x1d, 6),
    (56, 0x1e, 6),
    (57, 0x1f, 6),
    (58, 0x5c, 7),
    (59, 0xfb, 8),
    (60, 0x7ffc, 15),
    (61, 0x20, 6),
    (62, 0xffb, 12),
    (63, 0x3fc, 10),
    (64, 0x1ffa, 13),
    (65, 0x21, 6),
    (66, 0x5d, 7),
    (67, 0x5e, 7),
    (68, 0x5f, 7),
    (69, 0x60, 7),
    (70, 0x61, 7),
    (71, 0x62, 7),
    (72, 0x63, 7),
    (73, 0x64, 7),
    (74, 0x65, 7),
    (75, 0x66, 7),
    (76, 0x67, 7),
    (77, 0x68, 7),
    (78, 0x69, 7),
    (79, 0x6a, 7),
    (80, 0x6b, 7),
    (81, 0x6c, 7),
    (82, 0x6d, 7),
    (83, 0x6e, 7),
    (84, 0x6f, 7),
    (85, 0x70, 7),
    (86, 0x71, 7),
    (87, 0x72, 7),
    (88, 0xfc, 8),
    (89, 0x73, 7),
    (90, 0xfd, 8),
    (91, 0x1ffb, 13),
    (92, 0x7fff0, 19),
    (93, 0x1ffc, 13),
    (94, 0x3ffc, 14),
    (95, 0x22, 6),
    (96, 0x7ffd, 15),
    (97, 0x3, 5),
    (98, 0x23, 6),
    (99, 0x4, 5),
    (100, 0x24, 6),
    (101, 0x5, 5),
    (102, 0x25, 6),
    (103, 0x26, 6),
    (104, 0x27, 6),
    (105, 0x6, 5),
    (106, 0x74, 7),
    (107, 0x75, 7),
    (108, 0x28, 6),
    (109, 0x29, 6),
    (110, 0x2a, 6),
    (111, 0x7, 5),
    (112, 0x2b, 6),
    (113, 0x76, 7),
    (114, 0x2c, 6),
    (115, 0x8, 5),
    (116, 0x9, 5),
    (117, 0x2d, 6),
    (118, 0x77, 7),
    (119, 0x78, 7),
    (120, 0x79, 7),
    (121, 0x7a, 7),
    (122, 0x7b, 7),
    (123, 0x7ffe, 15),
    (124, 0x7fc, 11),
    (125, 0x3ffd, 14),
    (126, 0x1ffd, 13),
    (127, 0xffffffc, 28),
    (128, 0xfffe6, 20),
    (129, 0x3fffd2, 22),
    (130, 0xfffe7, 20),
    (131, 0xfffe8, 20),
    (132, 0x3fffd3, 22),
    (133, 0x3fffd4, 22),
    (134, 0x3fffd5, 22),
    (135, 0x7fffd9, 23),
    (136, 0x3fffd6, 22),
    (137, 0x7fffda, 23),
    (138, 0x7fffdb, 23),
    (139, 0x7fffdc, 23),
    (140, 0x7fffdd, 23),
    (141, 0x7fffde, 23),
    (142, 0xffffeb, 24),
    (143, 0x7fffdf, 23),
    (144, 0xffffec, 24),
    (145, 0xffffed, 24),
    (146, 0x3fffd7, 22),
    (147, 0x7fffe0, 23),
    (148, 0xfffffee, 24),
    (149, 0x7fffe1, 23),
    (150, 0x7fffe2, 23),
    (151, 0x7fffe3, 23),
    (152, 0x7fffe4, 23),
    (153, 0x1fffdc, 21),
    (154, 0x3fffd8, 22),
    (155, 0x7fffe5, 23),
    (156, 0x3fffd9, 22),
    (157, 0x7fffe6, 23),
    (158, 0x7fffe7, 23),
    (159, 0xffffef, 24),
    (160, 0x3fffda, 22),
    (161, 0x1fffdd, 21),
    (162, 0xfffe9, 20),
    (163, 0x3fffdb, 22),
    (164, 0x3fffdc, 22),
    (165, 0x7fffe8, 23),
    (166, 0x7fffe9, 23),
    (167, 0x1fffde, 21),
    (168, 0x7fffea, 23),
    (169, 0x3fffdd, 22),
    (170, 0x3fffde, 22),
    (171, 0xfffff0, 24),
    (172, 0x1fffdf, 21),
    (173, 0x3fffdf, 22),
    (174, 0x7fffeb, 23),
    (175, 0x7fffec, 23),
    (176, 0x1fffe0, 21),
    (177, 0x1fffe1, 21),
    (178, 0x3fffe0, 22),
    (179, 0x1fffe2, 21),
    (180, 0x7fffed, 23),
    (181, 0x3fffe1, 22),
    (182, 0x7fffee, 23),
    (183, 0x7fffef, 23),
    (184, 0xfffea, 20),
    (185, 0x3fffe2, 22),
    (186, 0x3fffe3, 22),
    (187, 0x3fffe4, 22),
    (188, 0x7ffff0, 23),
    (189, 0x3fffe5, 22),
    (190, 0x3fffe6, 22),
    (191, 0x7ffff1, 23),
    (192, 0x3ffffe0, 26),
    (193, 0x3ffffe1, 26),
    (194, 0xfffeb, 20),
    (195, 0x7fff1, 19),
    (196, 0x3fffe7, 22),
    (197, 0x7ffff2, 23),
    (198, 0x3fffe8, 22),
    (199, 0x1ffffec, 25),
    (200, 0x3ffffe2, 26),
    (201, 0x3ffffe3, 26),
    (202, 0x3ffffe4, 26),
    (203, 0x7ffffde, 27),
    (204, 0x7ffffdf, 27),
    (205, 0x3ffffe5, 26),
    (206, 0xfffff1, 24),
    (207, 0x1ffffed, 25),
    (208, 0x7fff2, 19),
    (209, 0x1fffe3, 21),
    (210, 0x3ffffe6, 26),
    (211, 0x7ffffe0, 27),
    (212, 0x7ffffe1, 27),
    (213, 0x3ffffe7, 26),
    (214, 0x7ffffe2, 27),
    (215, 0xfffff2, 24),
    (216, 0x1fffe4, 21),
    (217, 0x1fffe5, 21),
    (218, 0x3ffffe8, 26),
    (219, 0x3ffffe9, 26),
    (220, 0xfffffffd, 28),
    (221, 0x7ffffe3, 27),
    (222, 0x7ffffe4, 27),
    (223, 0x7ffffe5, 27),
    (224, 0xfffec, 20),
    (225, 0xfffff3, 24),
    (226, 0xfffed, 20),
    (227, 0x1fffe6, 21),
    (228, 0x3fffe9, 22),
    (229, 0x1fffe7, 21),
    (230, 0x1fffe8, 21),
    (231, 0x7ffff3, 23),
    (232, 0x3fffea, 22),
    (233, 0x3fffeb, 22),
    (234, 0x1ffffee, 25),
    (235, 0x1ffffef, 25),
    (236, 0xfffff4, 24),
    (237, 0xfffff5, 24),
    (238, 0x3ffffea, 26),
    (239, 0x7ffff4, 23),
    (240, 0x3ffffeb, 26),
    (241, 0x7ffffe6, 27),
    (242, 0x3ffffec, 26),
    (243, 0x3ffffed, 26),
    (244, 0x7ffffe7, 27),
    (245, 0x7ffffe8, 27),
    (246, 0x7ffffe9, 27),
    (247, 0x7ffffea, 27),
    (248, 0x7ffffeb, 27),
    (249, 0xfffffffe, 28),
    (250, 0x7ffffec, 27),
    (251, 0x7ffffed, 27),
    (252, 0x7ffffee, 27),
    (253, 0x7ffffef, 27),
    (254, 0x7fffff0, 27),
    (255, 0x3ffffee, 26),
    // End of string: reserved, never decodes to data.
    (256, 0x3fffffff, 30),
];

/// The end-of-string symbol.
pub const EOS: u16 = 256;

/// The rank of each symbol when the code words are put in lexicographic order.
const RANK: [u16; 257] = [
    84, 145, 224, 225, 226, 227, 228, 229, 230, 174, 253, 231, 232, 254, 233, 234,
    235, 236, 237, 238, 239, 240, 255, 241, 242, 243, 244, 245, 246, 247, 248, 249,
    10, 74, 75, 82, 85, 11, 68, 79, 76, 77, 69, 80, 70, 12, 13, 14,
    0, 1, 2, 15, 16, 17, 18, 19, 20, 21, 36, 71, 92, 22, 83, 78,
    86, 23, 37, 38, 39, 40, 41, 42, 43, 44, 45, 46, 47, 48, 49, 50,
    51, 52, 53, 54, 55, 56, 57, 58, 72, 59, 73, 87, 95, 88, 90, 24,
    93, 3, 25, 4, 26, 5, 27, 28, 29, 6, 60, 61, 30, 31, 32, 7,
    33, 62, 34, 8, 9, 35, 63, 64, 65, 66, 67, 94, 81, 91, 89, 250,
    98, 119, 99, 100, 120, 121, 122, 146, 123, 147, 148, 149, 150, 151, 175, 152,
    176, 177, 124, 153, 178, 154, 155, 156, 157, 106, 125, 158, 126, 159, 160, 179,
    127, 107, 101, 128, 129, 161, 162, 108, 163, 130, 131, 180, 109, 132, 164, 165,
    110, 111, 133, 112, 166, 134, 167, 168, 102, 135, 136, 137, 169, 138, 139, 170,
    190, 191, 103, 96, 140, 171, 141, 186, 192, 193, 194, 205, 206, 195, 181, 187,
    97, 113, 196, 207, 208, 197, 209, 182, 114, 115, 198, 199, 251, 210, 211, 212,
    104, 183, 105, 116, 142, 117, 118, 172, 143, 144, 188, 189, 184, 185, 200, 173,
    201, 213, 202, 203, 214, 215, 216, 217, 218, 252, 219, 220, 221, 222, 223, 204,
    256,
];

/// The symbol of each rank.
const SYMBOL: [u16; 257] = [
    48, 49, 50, 97, 99, 101, 105, 111, 115, 116, 32, 37, 45, 46, 47, 51,
    52, 53, 54, 55, 56, 57, 61, 65, 95, 98, 100, 102, 103, 104, 108, 109,
    110, 112, 114, 117, 58, 66, 67, 68, 69, 70, 71, 72, 73, 74, 75, 76,
    77, 78, 79, 80, 81, 82, 83, 84, 85, 86, 87, 89, 106, 107, 113, 118,
    119, 120, 121, 122, 38, 42, 44, 59, 88, 90, 33, 34, 40, 41, 63, 39,
    43, 124, 35, 62, 0, 36, 64, 91, 93, 126, 94, 125, 60, 96, 123, 92,
    195, 208, 128, 130, 131, 162, 184, 194, 224, 226, 153, 161, 167, 172, 176, 177,
    179, 209, 216, 217, 227, 229, 230, 129, 132, 133, 134, 136, 146, 154, 156, 160,
    163, 164, 169, 170, 173, 178, 181, 185, 186, 187, 189, 190, 196, 198, 228, 232,
    233, 1, 135, 137, 138, 139, 140, 141, 143, 147, 149, 150, 151, 152, 155, 157,
    158, 165, 166, 168, 174, 175, 180, 182, 183, 188, 191, 197, 231, 239, 9, 142,
    144, 145, 148, 159, 171, 206, 215, 225, 236, 237, 199, 207, 234, 235, 192, 193,
    200, 201, 202, 205, 210, 213, 218, 219, 238, 240, 242, 243, 255, 203, 204, 211,
    212, 214, 221, 222, 223, 241, 244, 245, 246, 247, 248, 250, 251, 252, 253, 254,
    2, 3, 4, 5, 6, 7, 8, 11, 12, 14, 15, 16, 17, 18, 19, 20,
    21, 23, 24, 25, 26, 27, 28, 29, 30, 31, 127, 220, 249, 10, 13, 22,
    256,
];

/// `FIRST[k]` is the code word of rank `k`, filled up with zeros to 30 bits; the
/// last entry closes the 30-bit range.
const FIRST: [u32; 258] = [
    0x0, 0x2000000, 0x4000000, 0x6000000, 0x8000000, 0xa000000, 0xc000000, 0xe000000,
    0x10000000, 0x12000000, 0x14000000, 0x15000000, 0x16000000, 0x17000000, 0x18000000, 0x19000000,
    0x1a000000, 0x1b000000, 0x1c000000, 0x1d000000, 0x1e000000, 0x1f000000, 0x20000000, 0x21000000,
    0x22000000, 0x23000000, 0x24000000, 0x25000000, 0x26000000, 0x27000000, 0x28000000, 0x29000000,
    0x2a000000, 0x2b000000, 0x2c000000, 0x2d000000, 0x2e000000, 0x2e800000, 0x2f000000, 0x2f800000,
    0x30000000, 0x30800000, 0x31000000, 0x31800000, 0x32000000, 0x32800000, 0x33000000, 0x33800000,
    0x34000000, 0x34800000, 0x35000000, 0x35800000, 0x36000000, 0x36800000, 0x37000000, 0x37800000,
    0x38000000, 0x38800000, 0x39000000, 0x39800000, 0x3a000000, 0x3a800000, 0x3b000000, 0x3b800000,
    0x3c000000, 0x3c800000, 0x3d000000, 0x3d800000, 0x3e000000, 0x3e400000, 0x3e800000, 0x3ec00000,
    0x3f000000, 0x3f400000, 0x3f800000, 0x3f900000, 0x3fa00000, 0x3fb00000, 0x3fc00000, 0x3fd00000,
    0x3fd80000, 0x3fe00000, 0x3fe80000, 0x3fec0000, 0x3ff00000, 0x3ff20000, 0x3ff40000, 0x3ff60000,
    0x3ff80000, 0x3ffa0000, 0x3ffc0000, 0x3ffd0000, 0x3ffe0000, 0x3ffe8000, 0x3fff0000, 0x3fff8000,
    0x3fff8800, 0x3fff9000, 0x3fff9800, 0x3fff9c00, 0x3fffa000, 0x3fffa400, 0x3fffa800, 0x3fffac00,
    0x3fffb000, 0x3fffb400, 0x3fffb800, 0x3fffba00, 0x3fffbc00, 0x3fffbe00, 0x3fffc000, 0x3fffc200,
    0x3fffc400, 0x3fffc600, 0x3fffc800, 0x3fffca00, 0x3fffcc00, 0x3fffce00, 0x3fffd000, 0x3fffd200,
    0x3fffd300, 0x3fffd400, 0x3fffd500, 0x3fffd600, 0x3fffd700, 0x3fffd800, 0x3fffd900, 0x3fffda00,
    0x3fffdb00, 0x3fffdc00, 0x3fffdd00, 0x3fffde00, 0x3fffdf00, 0x3fffe000, 0x3fffe100, 0x3fffe200,
    0x3fffe300, 0x3fffe400, 0x3fffe500, 0x3fffe600, 0x3fffe700, 0x3fffe800, 0x3fffe900, 0x3fffea00,
    0x3fffeb00, 0x3fffec00, 0x3fffec80, 0x3fffed00, 0x3fffed80, 0x3fffee00, 0x3fffee80, 0x3fffef00,
    0x3fffef80, 0x3ffff000, 0x3ffff080, 0x3ffff100, 0x3ffff180, 0x3ffff200, 0x3ffff280, 0x3ffff300,
    0x3ffff380, 0x3ffff400, 0x3ffff480, 0x3ffff500, 0x3ffff580, 0x3ffff600, 0x3ffff680, 0x3ffff700,
    0x3ffff780, 0x3ffff800, 0x3ffff880, 0x3ffff900, 0x3ffff980, 0x3ffffa00, 0x3ffffa80, 0x3ffffac0,
    0x3ffffb00, 0x3ffffb40, 0x3ffffb80, 0x3ffffbc0, 0x3ffffc00, 0x3ffffc40, 0x3ffffc80, 0x3ffffcc0,
    0x3ffffd00, 0x3ffffd40, 0x3ffffd80, 0x3ffffda0, 0x3ffffdc0, 0x3ffffde0, 0x3ffffe00, 0x3ffffe10,
    0x3ffffe20, 0x3ffffe30, 0x3ffffe40, 0x3ffffe50, 0x3ffffe60, 0x3ffffe70, 0x3ffffe80, 0x3ffffe90,
    0x3ffffea0, 0x3ffffeb0, 0x3ffffec0, 0x3ffffed0, 0x3ffffee0, 0x3ffffef0, 0x3ffffef8, 0x3fffff00,
    0x3fffff08, 0x3fffff10, 0x3fffff18, 0x3fffff20, 0x3fffff28, 0x3fffff30, 0x3fffff38, 0x3fffff40,
    0x3fffff48, 0x3fffff50, 0x3fffff58, 0x3fffff60, 0x3fffff68, 0x3fffff70, 0x3fffff78, 0x3fffff80,
    0x3fffff88, 0x3fffff8c, 0x3fffff90, 0x3fffff94, 0x3fffff98, 0x3fffff9c, 0x3fffffa0, 0x3fffffa4,
    0x3fffffa8, 0x3fffffac, 0x3fffffb0, 0x3fffffb4, 0x3fffffb8, 0x3fffffbc, 0x3fffffc0, 0x3fffffc4,
    0x3fffffc8, 0x3fffffcc, 0x3fffffd0, 0x3fffffd4, 0x3fffffd8, 0x3fffffdc, 0x3fffffe0, 0x3fffffe4,
    0x3fffffe8, 0x3fffffec, 0x3ffffff0, 0x3ffffff4, 0x3ffffff8, 0x3ffffffc, 0x3ffffffd, 0x3ffffffe,
    0x3fffffff, 0x40000000,
];

// ---------------------------------------------------------------------------
// Bits
// ---------------------------------------------------------------------------

/// The low `n` bits of `v`, most significant bit first.
pub open spec fn nat_bits(v: nat, n: nat) -> Seq<bool>
    decreases n,
{
    if n == 0 {
        Seq::empty()
    } else {
        nat_bits(v / 2, (n - 1) as nat).push(v % 2 == 1)
    }
}

/// The weight of bit `k` of a byte, counted from the most significant bit.
pub open spec fn bit_weight(k: int) -> int {
    if k == 0 {
        128
    } else if k == 1 {
        64
    } else if k == 2 {
        32
    } else if k == 3 {
        16
    } else if k == 4 {
        8
    } else if k == 5 {
        4
    } else if k == 6 {
        2
    } else {
        1
    }
}

/// The bits of a byte string, in the order in which they are sent.
pub open spec fn bits_of(data: Seq<u8>) -> Seq<bool> {
    Seq::new(8 * data.len(), |i: int| (data[i / 8] as int / bit_weight(i % 8)) % 2 == 1)
}

/// The code word of `symbol`.
#[verifier::opaque]
pub open spec fn code_bits(symbol: int) -> Seq<bool> {
    nat_bits(HUFFMAN_CODES@[symbol].1 as nat, HUFFMAN_CODES@[symbol].2 as nat)
}

/// The code words of a byte string, one after another.
pub open spec fn huffman_bits(text: Seq<u8>) -> Seq<bool>
    decreases text.len(),
{
    if text.len() == 0 {
        Seq::empty()
    } else {
        huffman_bits(text.drop_last()) + code_bits(text.last() as int)
    }
}

/// Whether `bits` is `text` in code words, followed by at most seven one-bits.
pub open spec fn huffman_encodes(bits: Seq<bool>, text: Seq<u8>) -> bool {
    let n = huffman_bits(text).len() as int;
    &&& n <= bits.len() <= n + 7
    &&& bits.take(n) == huffman_bits(text)
    &&& forall|i: int| n <= i < bits.len() ==> bits[i]
}

proof fn lemma_nat_bits_len(v: nat, n: nat)
    ensures
        nat_bits(v, n).len() == n,
    decreases n,
{
    if n > 0 {
        lemma_nat_bits_len(v / 2, (n - 1) as nat);
    }
}

proof fn lemma_nat_bits_index(v: nat, n: nat, j: int)
    requires
        0 <= j < n,
    ensures
        nat_bits(v, n).len() == n,
        nat_bits(v, n)[j] == ((v / pow2((n - 1 - j) as nat)) % 2 == 1),
    decreases n,
{
    lemma_nat_bits_len(v, n);
    lemma_nat_bits_len(v / 2, (n - 1) as nat);
    if j == n - 1 {
        lemma2_to64();
        assert(v / 1 == v);
    } else {
        lemma_nat_bits_index(v / 2, (n - 1) as nat, j);
        let m = (n - 2 - j) as nat;
        lemma_pow2_pos(m);
        lemma_pow2_unfold(m + 1);
        vstd::arithmetic::div_mod::lemma_div_denominator(v as int, 2, pow2(m) as int);
        assert(nat_bits(v, n)[j] == nat_bits(v / 2, (n - 1) as nat)[j]);
    }
}

/// The number that a bit sequence denotes, most significant bit first.
spec fn bits_value(s: Seq<bool>) -> nat
    decreases s.len(),
{
    if s.len() == 0 {
        0
    } else {
        bits_value(s.drop_last()) * 2 + if s.last() {
            1nat
        } else {
            0nat
        }
    }
}

proof fn lemma_bits_value_nat_bits(v: nat, n: nat)
    ensures
        bits_value(nat_bits(v, n)) == v % pow2(n),
        nat_bits(v, n).len() == n,
    decreases n,
{
    lemma_nat_bits_len(v, n);
    lemma_pow2_pos(n);
    if n == 0 {
        lemma2_to64();
    } else {
        let m = (n - 1) as nat;
        lemma_pow2_pos(m);
        lemma_bits_value_nat_bits(v / 2, m);
        assert(nat_bits(v, n).drop_last() =~= nat_bits(v / 2, m));
        lemma_pow2_unfold(n);
        vstd::arithmetic::div_mod::lemma_mod_breakdown(v as int, 2, pow2(m) as int);
    }
}

/// A prefix denotes the leading part of the number.
proof fn lemma_bits_value_prefix(p: Seq<bool>, s: Seq<bool>)
    requires
        p.is_prefix_of(s),
    ensures
        bits_value(p) * pow2((s.len() - p.len()) as nat) <= bits_value(s),
        bits_value(s) < (bits_value(p) + 1) * pow2((s.len() - p.len()) as nat),
    decreases s.len(),
{
    let x = bits_value(p) as int;
    if p.len() == s.len() {
        assert(p =~= s);
        lemma2_to64();
        assert(x * 1 == x && (x + 1) * 1 == x + 1) by (nonlinear_arith);
    } else {
        let t = s.drop_last();
        assert(p.is_prefix_of(t));
        lemma_bits_value_prefix(p, t);
        let m = (t.len() - p.len()) as nat;
        lemma_pow2_unfold(m + 1);
        assert((s.len() - p.len()) as nat == m + 1);
        let (a, y) = (pow2(m) as int, bits_value(t) as int);
        assert(x * (2 * a) <= 2 * y && 2 * y + 1 < (x + 1) * (2 * a)) by (nonlinear_arith)
            requires
                x * a <= y,
                y < (x + 1) * a,
        ;
        assert(pow2(m + 1) == 2 * a);
        assert(2 * y <= bits_value(s) <= 2 * y + 1);
    }
}

// ---------------------------------------------------------------------------
// No code word begins another
// ---------------------------------------------------------------------------

#[verifier::opaque]
spec fn first(k: int) -> int {
    FIRST@[k] as int
}

#[verifier::opaque]
spec fn rank(s: int) -> int {
    RANK@[s] as int
}

#[verifier::opaque]
spec fn symbol(k: int) -> int {
    SYMBOL@[k] as int
}

proof fn lemma_first_step(k: int)
    requires
        0 <= k < 257,
    ensures
        first(k) < first(k + 1),
{
    reveal(first);
}

proof fn lemma_first_sorted(j: int, k: int)
    requires
        0 <= j < k <= 257,
    ensures
        first(j) < first(k),
    decreases k,
{
    lemma_first_step(k - 1);
    if j < k - 1 {
        lemma_first_sorted(j, k - 1);
    }
}

/// What the two tables say of the code words of one length.
spec fn table_row(s: int, len: int, top: int, fill: int) -> bool {
    let (_, code, n) = HUFFMAN_CODES@[s];
    n == len ==> (code as int % top) * fill == first(rank(s)) && (code as int % top + 1)
        * fill == first(rank(s) + 1)
}

proof fn lemma_table_rows(s: int)
    requires
        0 <= s <= 256,
    ensures
        0 <= rank(s) <= 256,
        5 <= HUFFMAN_CODES@[s].2 <= 30,
        table_row(s, 5, 0x20, 0x2000000),
        table_row(s, 6, 0x40, 0x1000000),
        table_row(s, 7, 0x80, 0x800000),
        table_row(s, 8, 0x100, 0x400000),
        table_row(s, 9, 0x200, 0x200000),
        table_row(s, 10, 0x400, 0x100000),
        table_row(s, 11, 0x800, 0x80000),
        table_row(s, 12, 0x1000, 0x40000),
        table_row(s, 13, 0x2000, 0x20000),
        table_row(s, 14, 0x4000, 0x10000),
        table_row(s, 15, 0x8000, 0x8000),
        table_row(s, 16, 0x10000, 0x4000),
        table_row(s, 17, 0x20000, 0x2000),
        table_row(s, 18, 0x40000, 0x1000),
        table_row(s, 19, 0x80000, 0x800),
        table_row(s, 20, 0x100000, 0x400),
        table_row(s, 21, 0x200000, 0x200),
        table_row(s, 22, 0x400000, 0x100),
        table_row(s, 23, 0x800000, 0x80),
        table_row(s, 24, 0x1000000, 0x40),
        table_row(s, 25, 0x2000000, 0x20),
        table_row(s, 26, 0x4000000, 0x10),
        table_row(s, 27, 0x8000000, 0x8),
        table_row(s, 28, 0x10000000, 0x4),
        table_row(s, 29, 0x20000000, 0x2),
        table_row(s, 30, 0x40000000, 0x1),
{
    reveal(first);
    reveal(rank);
}

/// The 30-bit range of the code words that begin with the code word of `s`.
proof fn lemma_code_range(s: int)
    requires
        0 <= s <= 256,
    ensures
        0 <= rank(s) <= 256,
        5 <= HUFFMAN_CODES@[s].2 <= 30,
        code_bits(s).len() == HUFFMAN_CODES@[s].2,
        bits_value(code_bits(s)) * pow2((30 - HUFFMAN_CODES@[s].2) as nat) == first(rank(s)),
        (bits_value(code_bits(s)) + 1) * pow2((30 - HUFFMAN_CODES@[s].2) as nat)
            == first(rank(s) + 1),
{
    lemma2_to64();
    let (_, code, len) = HUFFMAN_CODES@[s];
    reveal(code_bits);
    lemma_bits_value_nat_bits(code as nat, len as nat);
    lemma_table_rows(s);
}

/// No code word begins another one.
pub proof fn lemma_prefix_free(a: int, b: int)
    requires
        0 <= a <= 256,
        0 <= b <= 256,
        code_bits(a).is_prefix_of(code_bits(b)),
    ensures
        a == b,
{
    lemma_code_range(a);
    lemma_code_range(b);
    let (s, t) = (code_bits(a), code_bits(b));
    lemma_bits_value_prefix(s, t);
    let (x, y) = (bits_value(s) as int, bits_value(t) as int);
    let d = (t.len() - s.len()) as nat;
    let f = (30 - t.len()) as nat;
    vstd::arithmetic::power2::lemma_pow2_adds(d, f);
    lemma_pow2_pos(f);
    assert(d + f == (30 - s.len()) as nat);
    let (p, q) = (pow2(d) as int, pow2(f) as int);
    assert(x * (p * q) <= y * q && (y + 1) * q <= (x + 1) * (p * q)) by (nonlinear_arith)
        requires
            x * p <= y,
            y + 1 <= (x + 1) * p,
            q > 0,
    ;
    let (i, j) = (rank(a), rank(b));
    assert(y * q < (y + 1) * q) by (nonlinear_arith)
        requires
            q > 0,
    ;
    assert(first(i) <= first(j) && first(j + 1) <= first(i + 1));
    if i < j {
        if i + 1 < j {
            lemma_first_sorted(i + 1, j);
        }
        lemma_first_step(j);
        assert(false);
    }
    if j < i {
        lemma_first_sorted(j, i);
        assert(false);
    }
    lemma_symbol_of_rank(a);
    lemma_symbol_of_rank(b);
}

proof fn lemma_symbol_of_rank(s: int)
    requires
        0 <= s <= 256,
    ensures
        symbol(rank(s)) == s,
{
    reveal(rank);
    reveal(symbol);
}

proof fn lemma_all_ones(n: nat)
    ensures
        nat_bits((pow2(n) - 1) as nat, n) == Seq::new(n, |i: int| true),
    decreases n,
{
    lemma_pow2_pos(n);
    if n > 0 {
        lemma_pow2_unfold(n);
        lemma_pow2_pos((n - 1) as nat);
        lemma_all_ones((n - 1) as nat);
    }
    assert(nat_bits((pow2(n) - 1) as nat, n) =~= Seq::new(n, |i: int| true));
}

/// The end-of-string code word is thirty one-bits, so every shorter run of ones begins it.
proof fn lemma_ones_begin_eos(p: Seq<bool>)
    requires
        p.len() <= 30,
        forall|i: int| 0 <= i < p.len() ==> p[i],
    ensures
        p.is_prefix_of(code_bits(256)),
{
    reveal(code_bits);
    let w = code_bits(256);
    assert(HUFFMAN_CODES@[256] == (256u16, 0x3fffffffu32, 30u8));
    lemma_all_ones(30);
    lemma2_to64();
    assert(p =~= w.take(p.len() as int));
}

// ---------------------------------------------------------------------------
// The decoding tree
// ---------------------------------------------------------------------------

/// A node of the decoding tree. A leaf carries its symbol.
struct HuffNode {
    child0: Option<usize>,
    child1: Option<usize>,
    symbol: Option<u16>,
}

/// The decoding tree, with the bit path that leads to each node.
struct HuffTree {
    nodes: Vec<HuffNode>,
    paths: Ghost<Seq<Seq<bool>>>,
    at: Ghost<Map<Seq<bool>, int>>,
}

impl HuffTree {
    spec fn child(self, k: int, bit: bool) -> Option<usize> {
        if bit {
            self.nodes@[k].child1
        } else {
            self.nodes@[k].child0
        }
    }

    /// The link of node `k` for `bit` leads to the node of the longer path, where there is one.
    spec fn link_ok(self, k: int, bit: bool) -> bool {
        let p = self.paths@[k].push(bit);
        match self.child(k, bit) {
            Some(c) => c < self.nodes@.len() && self.paths@[c as int] == p,
            None => !self.at@.contains_key(p),
        }
    }

    spec fn wf(self) -> bool {
        &&& self.nodes@.len() == self.paths@.len() > 0
        &&& self.paths@[0] == Seq::<bool>::empty()
        &&& forall|k: int|
            0 <= k < self.nodes@.len() ==> self.at@.contains_key(#[trigger] self.paths@[k])
                && self.at@[self.paths@[k]] == k
        &&& forall|p: Seq<bool>| #[trigger]
            self.at@.contains_key(p) ==> 0 <= self.at@[p] < self.nodes@.len()
                && self.paths@[self.at@[p]] == p
        &&& forall|p: Seq<bool>| #[trigger]
            self.at@.contains_key(p) && p.len() > 0 ==> self.at@.contains_key(p.drop_last())
        &&& forall|k: int, bit: bool| 0 <= k < self.nodes@.len() ==> #[trigger] self.link_ok(k, bit)
    }

    /// The symbol at the end of path `p`.
    spec fn symbol_at(self, p: Seq<bool>) -> Option<u16> {
        self.nodes@[self.at@[p]].symbol
    }

    fn new() -> (t: Self)
        ensures
            t.wf(),
            t.at@.dom() == set![Seq::<bool>::empty()],
            t.symbol_at(Seq::empty()) is None,
    {
        let mut nodes: Vec<HuffNode> = Vec::new();
        nodes.push(HuffNode { child0: None, child1: None, symbol: None });
        let ghost e = Seq::<bool>::empty();
        let ghost paths = seq![e];
        let ghost at = map![e => 0int];
        let t = HuffTree { nodes, paths: Ghost(paths), at: Ghost(at) };
        proof {
            assert(e.push(true).len() == 1 && e.push(false).len() == 1);
            assert(t.at@.dom() =~= set![e]);
        }
        t
    }

    /// The node that `bit` leads to from `node`, made where it is missing.
    fn step(&mut self, node: usize, bit: bool) -> (r: usize)
        requires
            old(self).wf(),
            node < old(self).nodes@.len(),
        ensures
            final(self).wf(),
            r < final(self).nodes@.len(),
            final(self).paths@[r as int] == old(self).paths@[node as int].push(bit),
            final(self).at@.dom() == old(self).at@.dom().insert(
                old(self).paths@[node as int].push(bit),
            ),
            forall|p: Seq<bool>| #[trigger]
                old(self).at@.contains_key(p) ==> final(self).symbol_at(p) == old(self).symbol_at(
                    p,
                ),
            !old(self).at@.contains_key(old(self).paths@[node as int].push(bit))
                ==> final(self).symbol_at(old(self).paths@[node as int].push(bit)) is None,
    {
        let ghost p = self.paths@[node as int].push(bit);
        assert(self.link_ok(node as int, bit));
        let existing = if bit {
            self.nodes[node].child1
        } else {
            self.nodes[node].child0
        };
        match existing {
            Some(c) => {
                proof {
                    assert(self.at@.contains_key(self.paths@[c as int]));
                    assert(self.at@.dom() =~= self.at@.dom().insert(p));
                }
                c
            },
            None => {
                let c: usize = self.nodes.len();
                let ghost before = *self;
                let old_node = HuffNode {
                    child0: self.nodes[node].child0,
                    child1: self.nodes[node].child1,
                    symbol: self.nodes[node].symbol,
                };
                let linked = if bit {
                    HuffNode { child0: old_node.child0, child1: Some(c), symbol: old_node.symbol }
                } else {
                    HuffNode { child0: Some(c), child1: old_node.child1, symbol: old_node.symbol }
                };
                self.nodes.set(node, linked);
                self.nodes.push(HuffNode { child0: None, child1: None, symbol: None });
                self.paths = Ghost(self.paths@.push(p));
                self.at = Ghost(self.at@.insert(p, c as int));
                proof {
                    assert(self.at@.dom() =~= before.at@.dom().insert(p));
                    assert(p.drop_last() =~= before.paths@[node as int]);
                    assert forall|k: int, b: bool| 0 <= k < self.nodes@.len() implies #[trigger]
                        self.link_ok(k, b) by {
                        if k < c {
                            assert(before.link_ok(k, b));
                            if before.paths@[k].push(b) == p {
                                assert(p.drop_last() =~= before.paths@[node as int]);
                                assert(p.drop_last() =~= before.paths@[k]);
                                assert(before.at@[before.paths@[k]] == k);
                                assert(before.at@[before.paths@[node as int]] == node);
                                assert(p.last() == b && p.last() == bit);
                            }
                        } else {
                            let q = p.push(b);
                            assert(q.drop_last() =~= p);
                            assert(q != p) by {
                                assert(q.len() == p.len() + 1);
                            }
                            assert(!before.at@.contains_key(q));
                        }
                    }
                }
                c
            },
        }
    }

    /// Add the code word of `symbol`.
    fn insert(&mut self, symbol: u16, code: u32, len: u8)
        requires
            old(self).wf(),
            0 < len <= 32,
        ensures
            final(self).wf(),
            forall|p: Seq<bool>| #[trigger]
                final(self).at@.contains_key(p) <==> old(self).at@.contains_key(p)
                    || p.is_prefix_of(nat_bits(code as nat, len as nat)),
            forall|p: Seq<bool>| #[trigger]
                final(self).at@.contains_key(p) ==> final(self).symbol_at(p) == (if p == nat_bits(
                    code as nat,
                    len as nat,
                ) {
                    Some(symbol)
                } else if old(self).at@.contains_key(p) {
                    old(self).symbol_at(p)
                } else {
                    None
                }),
    {
        let ghost word = nat_bits(code as nat, len as nat);
        let ghost before = *self;
        let mut node: usize = 0;
        let mut j: u8 = 0;
        let mut d: u64 = 1;
        let mut i: u8 = 1;
        proof {
            lemma2_to64();
            lemma_nat_bits_len(code as nat, len as nat);
        }
        while i < len
            invariant
                1 <= i <= len <= 32,
                d == pow2((i - 1) as nat),
                d <= 0x8000_0000,
            decreases len - i,
        {
            proof {
                lemma_pow2_unfold(i as nat);
                lemma2_to64();
                if i < 31 {
                    vstd::arithmetic::power2::lemma_pow2_strictly_increases(i as nat, 31);
                }
                if i == 32 {
                    assert(false);
                }
                assert(pow2(i as nat) <= pow2(31)) by {
                    if i < 31 {
                    } else {
                        assert(i == 31);
                    }
                }
            }
            d = d * 2;
            i = i + 1;
        }
        proof {
            assert(word.take(0) =~= Seq::<bool>::empty());
            assert(self.at@.contains_key(self.paths@[0]));
            assert forall|p: Seq<bool>| #[trigger] self.at@.contains_key(p) <==> before.at@.contains_key(p)
                    || (p.is_prefix_of(word) && p.len() <= 0) by {
                if p.len() == 0 {
                    assert(p =~= Seq::<bool>::empty());
                }
            }
        }
        while j < len
            invariant
                j <= len,
                0 < len <= 32,
                word == nat_bits(code as nat, len as nat),
                word.len() == len,
                j < len ==> d == pow2((len - 1 - j) as nat),
                self.wf(),
                node < self.nodes@.len(),
                self.paths@[node as int] == word.take(j as int),
                forall|p: Seq<bool>| #[trigger]
                    self.at@.contains_key(p) <==> before.at@.contains_key(p) || (p.is_prefix_of(
                        word,
                    ) && p.len() <= j),
                forall|p: Seq<bool>| #[trigger]
                    self.at@.contains_key(p) ==> self.symbol_at(p) == (if before.at@.contains_key(p) {
                        before.symbol_at(p)
                    } else {
                        None
                    }),
            decreases len - j,
        {
            proof {
                lemma_pow2_pos((len - 1 - j) as nat);
                lemma_nat_bits_index(code as nat, len as nat, j as int);
            }
            let bit: bool = (code as u64 / d) % 2 == 1;
            let ghost mid = *self;
            let ghost q = word.take(j as int).push(bit);
            node = self.step(node, bit);
            proof {
                assert(bit == word[j as int]);
                assert(q =~= word.take(j + 1));
                assert forall|p: Seq<bool>| #[trigger] self.at@.contains_key(p)
                    <==> before.at@.contains_key(p) || (p.is_prefix_of(word) && p.len() <= j + 1) by {
                    assert(self.at@.dom().contains(p) == self.at@.contains_key(p));
                    assert(mid.at@.dom().contains(p) == mid.at@.contains_key(p));
                    if p.is_prefix_of(word) && p.len() == j + 1 {
                        assert(p =~= q);
                    }
                    if p == q {
                        assert(p.is_prefix_of(word));
                    }
                }
                assert forall|p: Seq<bool>| #[trigger] self.at@.contains_key(p) implies self.symbol_at(p)
                    == (if before.at@.contains_key(p) {
                    before.symbol_at(p)
                } else {
                    None
                }) by {
                    assert(self.at@.dom().contains(p) == self.at@.contains_key(p));
                    assert(mid.at@.dom().contains(p) == mid.at@.contains_key(p));
                    if !mid.at@.contains_key(p) {
                        assert(p == q);
                    }
                }
                if j + 1 < len {
                    lemma_pow2_unfold((len - 1 - j) as nat);
                }
            }
            d = d / 2;
            j = j + 1;
        }
        let ghost mid = *self;
        assert(word.take(len as int) =~= word);
        let marked = HuffNode {
            child0: self.nodes[node].child0,
            child1: self.nodes[node].child1,
            symbol: Some(symbol),
        };
        self.nodes.set(node, marked);
        proof {
            assert forall|k: int, b: bool| 0 <= k < self.nodes@.len() implies #[trigger] self.link_ok(
                k,
                b,
            ) by {
                assert(mid.link_ok(k, b));
            }
            assert(mid.at@.contains_key(mid.paths@[node as int]));
            assert(mid.at@[word] == node);
            assert forall|p: Seq<bool>| #[trigger] self.at@.contains_key(p) implies self.symbol_at(p)
                == (if p == word {
                Some(symbol)
            } else if before.at@.contains_key(p) {
                before.symbol_at(p)
            } else {
                None
            }) by {
                assert(mid.at@.contains_key(p));
            }
        }
    }
}

/// Whether `p` begins one of the first `n` code words.
spec fn begins_code(p: Seq<bool>, n: int) -> bool {
    exists|s: int| 0 <= s < n && #[trigger] p.is_prefix_of(code_bits(s))
}

/// Whether `p` is none of the first `n` code words.
spec fn is_no_code(p: Seq<bool>, n: int) -> bool {
    forall|s: int| 0 <= s < n ==> p != #[trigger] code_bits(s)
}

/// The tree holds exactly the beginnings of the first `n` code words, and the
/// symbols where they end.
#[verifier::opaque]
spec fn holds_codes(t: HuffTree, n: int) -> bool {
    &&& t.wf()
    &&& forall|p: Seq<bool>| #[trigger]
        t.at@.contains_key(p) <==> p.len() == 0 || begins_code(p, n)
    &&& forall|p: Seq<bool>| #[trigger]
        t.at@.contains_key(p) ==> match t.symbol_at(p) {
            Some(s) => s < n && p == code_bits(s as int),
            None => is_no_code(p, n),
        }
}

/// The decoding tree of the whole code.
fn huffman_tree() -> (t: HuffTree)
    ensures
        holds_codes(t, 257),
{
    let mut t = HuffTree::new();
    let mut n: usize = 0;
    proof {
        reveal(holds_codes);
        assert(t.at@.dom().contains(Seq::<bool>::empty()));
        assert forall|p: Seq<bool>| #[trigger] t.at@.contains_key(p) <==> p.len() == 0 || begins_code(
            p,
            0,
        ) by {
            assert(t.at@.dom().contains(p) == t.at@.contains_key(p));
            if p.len() == 0 {
                assert(p =~= Seq::<bool>::empty());
            }
        }
    }
    while n < 257
        invariant
            n <= 257,
            holds_codes(t, n as int),
        decreases 257 - n,
    {
        let (symbol, code, len) = HUFFMAN_CODES[n];
        let ghost before = t;
        let ghost word = code_bits(n as int);
        proof {
            lemma_code_range(n as int);
            lemma_symbols_in_order(n as int);
            reveal(code_bits);
            reveal(holds_codes);
        }
        t.insert(symbol, code, len);
        proof {
            lemma_tree_grows(before, t, n as int);
        }
        n = n + 1;
    }
    t
}

proof fn lemma_symbols_in_order(n: int)
    requires
        0 <= n <= 256,
    ensures
        HUFFMAN_CODES@[n].0 == n,
{
}

proof fn lemma_tree_grows(before: HuffTree, t: HuffTree, n: int)
    requires
        holds_codes(before, n),
        0 <= n <= 256,
        t.wf(),
        forall|p: Seq<bool>| #[trigger]
            t.at@.contains_key(p) <==> before.at@.contains_key(p) || p.is_prefix_of(code_bits(n)),
        forall|p: Seq<bool>| #[trigger]
            t.at@.contains_key(p) ==> t.symbol_at(p) == (if p == code_bits(n) {
                Some(n as u16)
            } else if before.at@.contains_key(p) {
                before.symbol_at(p)
            } else {
                None
            }),
    ensures
        holds_codes(t, n + 1),
{
    reveal(holds_codes);
    assert forall|p: Seq<bool>| #[trigger] t.at@.contains_key(p) <==> p.len() == 0 || begins_code(
        p,
        n + 1,
    ) by {
        if begins_code(p, n + 1) {
            let s = choose|s: int| 0 <= s < n + 1 && #[trigger] p.is_prefix_of(code_bits(s));
            if s < n {
                assert(begins_code(p, n));
                assert(before.at@.contains_key(p));
            }
        }
        if before.at@.contains_key(p) && p.len() > 0 {
            let s = choose|s: int| 0 <= s < n && #[trigger] p.is_prefix_of(code_bits(s));
            assert(p.is_prefix_of(code_bits(s)));
        }
        if p.len() == 0 {
            assert(before.at@.contains_key(p));
        }
    }
    assert forall|p: Seq<bool>| #[trigger] t.at@.contains_key(p) implies match t.symbol_at(p) {
        Some(s) => s < n + 1 && p == code_bits(s as int),
        None => is_no_code(p, n + 1),
    } by {
        if p != code_bits(n) {
            if before.at@.contains_key(p) {
            } else {
                assert forall|s: int| 0 <= s < n + 1 implies p != #[trigger] code_bits(s) by {
                    if s < n && p == code_bits(s) {
                        assert(p.is_prefix_of(code_bits(s)));
                        assert(begins_code(p, n));
                    }
                }
            }
        }
    }
}

// ---------------------------------------------------------------------------
// Decoding
// ---------------------------------------------------------------------------

proof fn lemma_huffman_bits_add(a: Seq<u8>, b: Seq<u8>)
    ensures
        huffman_bits(a + b) == huffman_bits(a) + huffman_bits(b),
    decreases b.len(),
{
    if b.len() == 0 {
        assert(a + b =~= a);
        assert(huffman_bits(a) + huffman_bits(b) =~= huffman_bits(a));
    } else {
        assert((a + b).drop_last() =~= a + b.drop_last());
        lemma_huffman_bits_add(a, b.drop_last());
        assert(huffman_bits(a + b) =~= huffman_bits(a) + huffman_bits(b));
    }
}

proof fn lemma_huffman_bits_first(a: Seq<u8>)
    requires
        a.len() > 0,
    ensures
        huffman_bits(a) == code_bits(a[0] as int) + huffman_bits(a.drop_first()),
{
    let h = seq![a[0]];
    assert(a =~= h + a.drop_first());
    lemma_huffman_bits_add(h, a.drop_first());
    reveal_with_fuel(huffman_bits, 2);
    assert(h.drop_last() =~= Seq::<u8>::empty());
    assert(huffman_bits(h) =~= code_bits(a[0] as int));
}

/// Two texts whose code words begin the same bit string begin alike.
proof fn lemma_begin_alike(s: Seq<bool>, a: Seq<u8>, b: Seq<u8>)
    requires
        huffman_bits(a).is_prefix_of(s),
        huffman_bits(b).is_prefix_of(s),
    ensures
        a.is_prefix_of(b) || b.is_prefix_of(a),
    decreases a.len(),
{
    if a.len() > 0 && b.len() > 0 {
        lemma_huffman_bits_first(a);
        lemma_huffman_bits_first(b);
        let (x, y) = (code_bits(a[0] as int), code_bits(b[0] as int));
        assert(s.take(x.len() as int) =~= x) by {
            assert(huffman_bits(a).take(x.len() as int) =~= x);
        }
        assert(s.take(y.len() as int) =~= y) by {
            assert(huffman_bits(b).take(y.len() as int) =~= y);
        }
        if x.len() <= y.len() {
            assert(x =~= y.take(x.len() as int));
            lemma_prefix_free(a[0] as int, b[0] as int);
        } else {
            assert(y =~= x.take(y.len() as int));
            lemma_prefix_free(b[0] as int, a[0] as int);
        }
        let t = s.skip(x.len() as int);
        let (a1, b1) = (a.drop_first(), b.drop_first());
        assert(huffman_bits(a1) =~= t.take(huffman_bits(a1).len() as int)) by {
            assert(huffman_bits(a) =~= s.take(huffman_bits(a).len() as int));
            assert(huffman_bits(a).skip(x.len() as int) =~= huffman_bits(a1));
        }
        assert(huffman_bits(b1) =~= t.take(huffman_bits(b1).len() as int)) by {
            assert(huffman_bits(b) =~= s.take(huffman_bits(b).len() as int));
            assert(huffman_bits(b).skip(x.len() as int) =~= huffman_bits(b1));
        }
        lemma_begin_alike(t, a1, b1);
        if a1.is_prefix_of(b1) {
            assert(a =~= b.take(a.len() as int)) by {
                assert(a1 =~= b1.take(a1.len() as int));
                assert forall|i: int| 0 <= i < a.len() implies a[i] == b[i] by {
                    if i > 0 {
                        assert(a1[i - 1] == b1[i - 1]);
                    }
                }
            }
        } else {
            assert(b =~= a.take(b.len() as int)) by {
                assert(b1 =~= a1.take(b1.len() as int));
                assert forall|i: int| 0 <= i < b.len() implies a[i] == b[i] by {
                    if i > 0 {
                        assert(a1[i - 1] == b1[i - 1]);
                    }
                }
            }
        }
    }
}

/// After `text`, more of `bits` is left than padding could be: `done` is no proper
/// beginning of what the bits encode, so `text` continues `done`.
proof fn lemma_text_continues(bits: Seq<bool>, done: Seq<u8>, text: Seq<u8>)
    requires
        huffman_bits(done).is_prefix_of(bits),
        huffman_encodes(bits, text),
    ensures
        done.is_prefix_of(text),
{
    let n = huffman_bits(text).len() as int;
    assert(huffman_bits(text) =~= bits.take(n));
    lemma_begin_alike(bits, done, text);
    if !done.is_prefix_of(text) {
        let r = done.skip(text.len() as int);
        assert(done =~= text + r);
        lemma_huffman_bits_add(text, r);
        lemma_huffman_bits_first(r);
        let w = code_bits(r[0] as int);
        lemma_code_range(r[0] as int);
        assert forall|i: int| 0 <= i < w.len() implies w[i] by {
            assert(huffman_bits(r)[i] == w[i]);
            assert(huffman_bits(done)[n + i] == w[i]);
            assert(bits[n + i] == huffman_bits(done)[n + i]);
        }
        lemma_ones_begin_eos(w);
        lemma_prefix_free(r[0] as int, 256);
        assert(false);
    }
}

/// Where `done` has been decoded and the bits of `open` after it are no code word
/// yet, nothing is encoded by `bits` unless `open` is all there is left and is
/// padding, or `open` begins the next code word.
proof fn lemma_next_code(bits: Seq<bool>, done: Seq<u8>, open: Seq<bool>, text: Seq<u8>)
    requires
        (huffman_bits(done) + open).is_prefix_of(bits),
        huffman_encodes(bits, text),
    ensures
        done.is_prefix_of(text),
        text.len() == done.len() ==> bits.len() - huffman_bits(done).len() <= 7 && forall|i: int|
            0 <= i < open.len() ==> open[i],
        text.len() > done.len() ==> {
            let w = code_bits(text[done.len() as int] as int);
            open.is_prefix_of(w) || w.is_prefix_of(open)
        },
{
    let h = huffman_bits(done);
    assert(h =~= bits.take(h.len() as int)) by {
        assert(h =~= (h + open).take(h.len() as int));
    }
    lemma_text_continues(bits, done, text);
    assert(open =~= bits.subrange(h.len() as int, (h.len() + open.len()) as int)) by {
        assert(open =~= (h + open).skip(h.len() as int));
    }
    if text.len() == done.len() {
        assert(text =~= done);
        assert forall|i: int| 0 <= i < open.len() implies open[i] by {
            assert(bits[h.len() + i] == open[i]);
        }
    } else {
        let r = text.skip(done.len() as int);
        assert(text =~= done + r);
        lemma_huffman_bits_add(done, r);
        lemma_huffman_bits_first(r);
        let w = code_bits(text[done.len() as int] as int);
        assert(w =~= bits.subrange(h.len() as int, (h.len() + w.len()) as int)) by {
            assert(huffman_bits(text) =~= bits.take(huffman_bits(text).len() as int));
            assert(w =~= huffman_bits(text).subrange(h.len() as int, (h.len() + w.len()) as int));
        }
        if open.len() <= w.len() {
            assert(open =~= w.take(open.len() as int));
        } else {
            assert(w =~= open.take(w.len() as int));
        }
    }
}

/// A bit string encodes at most one text.
pub proof fn lemma_huffman_unique(bits: Seq<bool>, a: Seq<u8>, b: Seq<u8>)
    requires
        huffman_encodes(bits, a),
        huffman_encodes(bits, b),
    ensures
        a == b,
{
    assert(huffman_bits(a).is_prefix_of(bits));
    assert(huffman_bits(b).is_prefix_of(bits));
    lemma_text_continues(bits, a, b);
    lemma_text_continues(bits, b, a);
    assert(a =~= b);
}

/// A path that begins a code word without being one holds no code word inside it.
proof fn lemma_open_path(open: Seq<bool>, w: int)
    requires
        open.len() == 0 || begins_code(open, 257),
        is_no_code(open, 257),
        0 <= w <= 255,
    ensures
        !code_bits(w).is_prefix_of(open),
{
    if code_bits(w).is_prefix_of(open) {
        lemma_code_range(w);
        let s = choose|s: int| 0 <= s < 257 && #[trigger] open.is_prefix_of(code_bits(s));
        assert(code_bits(w) =~= code_bits(s).take(code_bits(w).len() as int));
        lemma_prefix_free(w, s);
        assert(open =~= code_bits(w));
    }
}

fn bit_of(byte: u8, k: usize) -> (bit: bool)
    requires
        k < 8,
    ensures
        bit == ((byte as int / bit_weight(k as int)) % 2 == 1),
{
    let weight: u8 = match k {
        0 => 128,
        1 => 64,
        2 => 32,
        3 => 16,
        4 => 8,
        5 => 4,
        6 => 2,
        _ => 1,
    };
    (byte / weight) % 2 == 1
}

impl HuffTree {
    /// The node that `bit` leads to from `node`.
    fn descend(&self, node: usize, bit: bool) -> (r: Option<usize>)
        requires
            holds_codes(*self, 257),
            node < self.nodes@.len(),
        ensures
            match r {
                Some(c) => c < self.nodes@.len() && self.paths@[c as int]
                    == self.paths@[node as int].push(bit) && begins_code(self.paths@[c as int], 257),
                None => !begins_code(self.paths@[node as int].push(bit), 257),
            },
    {
        proof {
            reveal(holds_codes);
            assert(self.link_ok(node as int, bit));
        }
        let next = if bit {
            self.nodes[node].child1
        } else {
            self.nodes[node].child0
        };
        proof {
            if let Some(c) = next {
                assert(self.at@.contains_key(self.paths@[c as int]));
            }
        }
        next
    }

    /// The symbol whose code word leads to `node`.
    fn symbol(&self, node: usize) -> (r: Option<u16>)
        requires
            holds_codes(*self, 257),
            node < self.nodes@.len(),
        ensures
            match r {
                Some(s) => s < 257 && self.paths@[node as int] == code_bits(s as int),
                None => is_no_code(self.paths@[node as int], 257),
            },
    {
        proof {
            reveal(holds_codes);
            assert(self.at@.contains_key(self.paths@[node as int]));
        }
        self.nodes[node].symbol
    }

    /// Only the root has the empty path.
    proof fn lemma_root(&self, node: int)
        requires
            holds_codes(*self, 257),
            0 <= node < self.nodes@.len(),
        ensures
            self.nodes@.len() > 0,
            self.paths@[0] == Seq::<bool>::empty(),
            is_no_code(self.paths@[0], 257),
            node != 0 ==> self.paths@[node].len() > 0,
    {
        reveal(holds_codes);
        assert(self.at@[self.paths@[0]] == 0);
        assert(self.at@[self.paths@[node]] == node);
        if self.paths@[node].len() == 0 {
            assert(self.paths@[node] =~= self.paths@[0]);
        }
        assert forall|s: int| 0 <= s < 257 implies self.paths@[0] != #[trigger] code_bits(s) by {
            lemma_code_range(s);
        }
    }

    proof fn lemma_nonempty(&self)
        requires
            holds_codes(*self, 257),
        ensures
            self.nodes@.len() > 0,
    {
        reveal(holds_codes);
    }
}

spec fn all_true(s: Seq<bool>) -> bool {
    forall|i: int| 0 <= i < s.len() ==> s[i]
}

proof fn lemma_all_true_push(s: Seq<bool>, b: bool)
    ensures
        all_true(s.push(b)) == (all_true(s) && b),
{
    if all_true(s.push(b)) {
        assert forall|i: int| 0 <= i < s.len() implies s[i] by {
            assert(s.push(b)[i]);
        }
        assert(s.push(b)[s.len() as int]);
    }
}

proof fn lemma_no_text_after_eos(bits: Seq<bool>, done: Seq<u8>, text: Seq<u8>)
    requires
        (huffman_bits(done) + code_bits(256)).is_prefix_of(bits),
    ensures
        !huffman_encodes(bits, text),
{
    if huffman_encodes(bits, text) {
        let open = code_bits(256);
        lemma_code_range(256);
        lemma_next_code(bits, done, open, text);
        if text.len() > done.len() {
            let w = text[done.len() as int] as int;
            if open.is_prefix_of(code_bits(w)) {
                lemma_prefix_free(256, w);
            } else {
                lemma_prefix_free(w, 256);
            }
        } else {
            assert(code_bits(256).len() == 30) by {
                assert(HUFFMAN_CODES@[256].2 == 30);
            }
            assert(bits.len() >= huffman_bits(done).len() + 30);
        }
    }
}

proof fn lemma_no_text_with_bad_padding(
    bits: Seq<bool>,
    done: Seq<u8>,
    open: Seq<bool>,
    text: Seq<u8>,
)
    requires
        bits == huffman_bits(done) + open,
        open.len() == 0 || begins_code(open, 257),
        is_no_code(open, 257),
        open.len() > 7 || !all_true(open),
    ensures
        !huffman_encodes(bits, text),
{
    if huffman_encodes(bits, text) {
        assert((huffman_bits(done) + open).is_prefix_of(bits));
        lemma_next_code(bits, done, open, text);
        if text.len() > done.len() {
            let w = text[done.len() as int] as int;
            lemma_last_code_fits(bits, done, open, text);
            lemma_open_path(open, w);
        }
    }
}

/// Decode a Huffman-coded string (RFC 7541 section 5.2).
pub fn huffman_decode(data: &[u8]) -> (r: Result<Vec<u8>, QpackError>)
    ensures
        match r {
            Ok(text) => huffman_encodes(bits_of(data@), text@),
            Err(e) => e is InvalidHuffman && forall|text: Seq<u8>|
                !huffman_encodes(bits_of(data@), text),
        },
{
    let tree = huffman_tree();
    let ghost bits = bits_of(data@);
    let mut out: Vec<u8> = Vec::new();
    let mut i: usize = 0;
    let mut k: usize = 0;
    let mut node: usize = 0;
    let mut depth: usize = 0;
    let mut all_ones: bool = true;
    let ghost mut open: Seq<bool> = Seq::empty();
    proof {
        assert(bits.take(0) =~= huffman_bits(Seq::<u8>::empty()) + Seq::<bool>::empty());
        tree.lemma_nonempty();
        tree.lemma_root(0);
    }
    while i < data.len()
        invariant
            i <= data@.len(),
            k < 8,
            i == data@.len() ==> k == 0,
            bits == bits_of(data@),
            holds_codes(tree, 257),
            node < tree.nodes@.len(),
            open == tree.paths@[node as int],
            open.len() == 0 || begins_code(open, 257),
            is_no_code(open, 257),
            open.len() == depth,
            depth <= 30,
            all_ones == all_true(open),
            bits.take(8 * i + k) == huffman_bits(out@) + open,
        decreases data@.len() - i, 8 - k,
    {
        let ghost pos = 8 * i + k;
        let bit: bool = bit_of(data[i], k);
        let ghost before = open;
        proof {
            assert(pos / 8 == i && pos % 8 == k);
            assert(bits[pos] == bit);
            open = open.push(bit);
            lemma_all_true_push(before, bit);
            assert(bits.take(pos + 1) =~= bits.take(pos).push(bit));
            assert(bits.take(pos + 1) =~= huffman_bits(out@) + open);
            assert((huffman_bits(out@) + open).is_prefix_of(bits));
        }
        all_ones = all_ones && bit;
        match tree.descend(node, bit) {
            None => {
                proof {
                    assert forall|text: Seq<u8>| !huffman_encodes(bits, text) by {
                        lemma_dead_end(bits, out@, before, bit, text);
                    }
                }
                return Err(QpackError::InvalidHuffman);
            },
            Some(c) => {
                node = c;
                proof {
                    let s = choose|s: int| 0 <= s < 257 && #[trigger] open.is_prefix_of(code_bits(s));
                    lemma_code_range(s);
                }
                depth = depth + 1;
                match tree.symbol(node) {
                    Some(symbol) => {
                        if symbol == EOS {
                            proof {
                                assert forall|text: Seq<u8>| !huffman_encodes(bits, text) by {
                                    lemma_no_text_after_eos(bits, out@, text);
                                }
                            }
                            return Err(QpackError::InvalidHuffman);
                        }
                        proof {
                            assert(out@.push(symbol as u8).drop_last() =~= out@);
                            tree.lemma_root(0);
                            assert(bits.take(pos + 1) =~= huffman_bits(out@.push(symbol as u8))
                                + Seq::<bool>::empty());
                            open = Seq::empty();
                        }
                        out.push(symbol as u8);
                        node = 0;
                        depth = 0;
                        all_ones = true;
                    },
                    None => {},
                }
            },
        }
        k = k + 1;
        if k == 8 {
            k = 0;
            i = i + 1;
        }
    }
    proof {
        assert(bits.take(8 * i + k) =~= bits);
        tree.lemma_root(node as int);
    }
    if node != 0 {
        if depth > 7 || !all_ones {
            proof {
                assert forall|text: Seq<u8>| !huffman_encodes(bits, text) by {
                    lemma_no_text_with_bad_padding(bits, out@, open, text);
                }
            }
            return Err(QpackError::InvalidHuffman);
        }
    }
    proof {
        let n = huffman_bits(out@).len() as int;
        assert((huffman_bits(out@) + open).take(n) =~= huffman_bits(out@));
        assert forall|j: int| n <= j < bits.len() implies bits[j] by {
            assert(bits[j] == open[j - n]);
        }
    }
    Ok(out)
}

/// A bit that continues no code word is no bit of an encoded text.
proof fn lemma_dead_end(
    bits: Seq<bool>,
    done: Seq<u8>,
    before: Seq<bool>,
    bit: bool,
    text: Seq<u8>,
)
    requires
        before.len() == 0 || begins_code(before, 257),
        is_no_code(before, 257),
        !begins_code(before.push(bit), 257),
        (huffman_bits(done) + before.push(bit)).is_prefix_of(bits),
    ensures
        !huffman_encodes(bits, text),
{
    let open = before.push(bit);
    if huffman_encodes(bits, text) {
    lemma_next_code(bits, done, open, text);
    if text.len() > done.len() {
        let w = text[done.len() as int] as int;
        if open.is_prefix_of(code_bits(w)) {
            assert(begins_code(open, 257));
        } else {
            if code_bits(w).len() == open.len() {
                assert(code_bits(w) =~= open);
                assert(open.is_prefix_of(code_bits(w)));
            } else {
                assert(code_bits(w) =~= before.take(code_bits(w).len() as int));
                lemma_open_path(before, w);
            }
        }
    } else {
        assert(bits.len() >= huffman_bits(done).len() + open.len());
        lemma_ones_begin_eos(open);
        assert(begins_code(open, 257));
    }
    }
}

/// Where `open` is all that is left, the next code word lies inside it.
proof fn lemma_last_code_fits(bits: Seq<bool>, done: Seq<u8>, open: Seq<bool>, text: Seq<u8>)
    requires
        bits == huffman_bits(done) + open,
        huffman_encodes(bits, text),
        done.is_prefix_of(text),
        text.len() > done.len(),
        open.is_prefix_of(code_bits(text[done.len() as int] as int)) || code_bits(
            text[done.len() as int] as int,
        ).is_prefix_of(open),
    ensures
        code_bits(text[done.len() as int] as int).is_prefix_of(open),
{
    let r = text.skip(done.len() as int);
    assert(text =~= done + r);
    lemma_huffman_bits_add(done, r);
    lemma_huffman_bits_first(r);
    let w = code_bits(text[done.len() as int] as int);
    assert(w.len() <= open.len());
    if open.is_prefix_of(w) {
        assert(w =~= open);
    }
}

// ---------------------------------------------------------------------------
// The code of RFC 7541
// ---------------------------------------------------------------------------

proof fn lemma_rank_step(k: int)
    requires
        0 <= k < 256,
    ensures
        ({
            let (s, t) = (symbol(k), symbol(k + 1));
            &&& 0 <= s <= 256 && 0 <= t <= 256
            &&& HUFFMAN_CODES@[s].2 < HUFFMAN_CODES@[t].2 || HUFFMAN_CODES@[s].2
                == HUFFMAN_CODES@[t].2 && s < t
        }),
{
    reveal(symbol);
}

proof fn lemma_rank_sorted(j: int, k: int)
    requires
        0 <= j < k <= 256,
    ensures
        ({
            let (s, t) = (symbol(j), symbol(k));
            HUFFMAN_CODES@[s].2 < HUFFMAN_CODES@[t].2 || HUFFMAN_CODES@[s].2 == HUFFMAN_CODES@[t].2
                && s < t
        }),
    decreases k,
{
    lemma_rank_step(k - 1);
    if j < k - 1 {
        lemma_rank_sorted(j, k - 1);
    }
}

/// The code is canonical: of two symbols with code words of one length the smaller one has
/// the smaller word, and every word comes before the longer ones.
pub proof fn lemma_canonical(a: int, b: int)
    requires
        0 <= a <= 256,
        0 <= b <= 256,
        HUFFMAN_CODES@[a].2 < HUFFMAN_CODES@[b].2 || HUFFMAN_CODES@[a].2 == HUFFMAN_CODES@[b].2 && a
            < b,
    ensures
        ({
            let (_, x, n) = HUFFMAN_CODES@[a];
            let (_, y, m) = HUFFMAN_CODES@[b];
            (x as nat % pow2(n as nat)) * pow2((m - n) as nat) < y as nat % pow2(m as nat)
        }),
{
    let (_, x, n) = HUFFMAN_CODES@[a];
    let (_, y, m) = HUFFMAN_CODES@[b];
    lemma_symbol_of_rank(a);
    lemma_symbol_of_rank(b);
    lemma_code_range(a);
    lemma_code_range(b);
    let (i, j) = (rank(a), rank(b));
    if j < i {
        lemma_rank_sorted(j, i);
    }
    assert(i < j);
    lemma_first_sorted(i, j);
    reveal(code_bits);
    lemma_bits_value_nat_bits(x as nat, n as nat);
    lemma_bits_value_nat_bits(y as nat, m as nat);
    let u = (x as nat % pow2(n as nat)) as int;
    let v = (y as nat % pow2(m as nat)) as int;
    let d = (m - n) as nat;
    let f = (30 - m) as nat;
    vstd::arithmetic::power2::lemma_pow2_adds(d, f);
    lemma_pow2_pos(f);
    assert(d + f == (30 - n) as nat);
    let (p, q) = (pow2(d) as int, pow2(f) as int);
    assert(u * p < v) by (nonlinear_arith)
        requires
            u * (p * q) < v * q,
            q > 0,
    ;
}

/// How long the code word of each symbol is (RFC 7541 appendix B). Together with their order
/// this leaves no choice of the words.
pub proof fn lemma_code_lengths(s: int)
    requires
        0 <= s <= 256,
    ensures
        HUFFMAN_CODES@[s].0 == s,
        HUFFMAN_CODES@[s].2 == 5 <==> 48 <= s <= 50 || s == 97 || s == 99 || s == 101 || s == 105
            || s == 111 || 115 <= s <= 116,
        HUFFMAN_CODES@[s].2 == 6 <==> s == 32 || s == 37 || 45 <= s <= 47 || 51 <= s <= 57
            || s == 61 || s == 65 || s == 95 || s == 98 || s == 100 || 102 <= s <= 104
            || 108 <= s <= 110 || s == 112 || s == 114 || s == 117,
        HUFFMAN_CODES@[s].2 == 7 <==> s == 58 || 66 <= s <= 87 || s == 89 || 106 <= s <= 107
            || s == 113 || 118 <= s <= 122,
        HUFFMAN_CODES@[s].2 == 8 <==> s == 38 || s == 42 || s == 44 || s == 59 || s == 88
            || s == 90,
        HUFFMAN_CODES@[s].2 == 10 <==> 33 <= s <= 34 || 40 <= s <= 41 || s == 63,
        HUFFMAN_CODES@[s].2 == 11 <==> s == 39 || s == 43 || s == 124,
        HUFFMAN_CODES@[s].2 == 12 <==> s == 35 || s == 62,
        HUFFMAN_CODES@[s].2 == 13 <==> s == 0 || s == 36 || s == 64 || s == 91 || s == 93
            || s == 126,
        HUFFMAN_CODES@[s].2 == 14 <==> s == 94 || s == 125,
        HUFFMAN_CODES@[s].2 == 15 <==> s == 60 || s == 96 || s == 123,
        HUFFMAN_CODES@[s].2 == 19 <==> s == 92 || s == 195 || s == 208,
        HUFFMAN_CODES@[s].2 == 20 <==> s == 128 || 130 <= s <= 131 || s == 162 || s == 184
            || s == 194 || s == 224 || s == 226,
        HUFFMAN_CODES@[s].2 == 21 <==> s == 153 || s == 161 || s == 167 || s == 172
            || 176 <= s <= 177 || s == 179 || s == 209 || 216 <= s <= 217 || s == 227
            || 229 <= s <= 230,
        HUFFMAN_CODES@[s].2 == 22 <==> s == 129 || 132 <= s <= 134 || s == 136 || s == 146
            || s == 154 || s == 156 || s == 160 || 163 <= s <= 164 || 169 <= s <= 170 || s == 173
            || s == 178 || s == 181 || 185 <= s <= 187 || 189 <= s <= 190 || s == 196 || s == 198
            || s == 228 || 232 <= s <= 233,
        HUFFMAN_CODES@[s].2 == 23 <==> s == 1 || s == 135 || 137 <= s <= 141 || s == 143
            || s == 147 || 149 <= s <= 152 || s == 155 || 157 <= s <= 158 || 165 <= s <= 166
            || s == 168 || 174 <= s <= 175 || s == 180 || 182 <= s <= 183 || s == 188 || s == 191
            || s == 197 || s == 231 || s == 239,
        HUFFMAN_CODES@[s].2 == 24 <==> s == 9 || s == 142 || 144 <= s <= 145 || s == 148
            || s == 159 || s == 171 || s == 206 || s == 215 || s == 225 || 236 <= s <= 237,
        HUFFMAN_CODES@[s].2 == 25 <==> s == 199 || s == 207 || 234 <= s <= 235,
        HUFFMAN_CODES@[s].2 == 26 <==> 192 <= s <= 193 || 200 <= s <= 202 || s == 205 || s == 210
            || s == 213 || 218 <= s <= 219 || s == 238 || s == 240 || 242 <= s <= 243 || s == 255,
        HUFFMAN_CODES@[s].2 == 27 <==> 203 <= s <= 204 || 211 <= s <= 212 || s == 214
            || 221 <= s <= 223 || s == 241 || 244 <= s <= 248 || 250 <= s <= 254,
        HUFFMAN_CODES@[s].2 == 28 <==> 2 <= s <= 8 || 11 <= s <= 12 || 14 <= s <= 21
            || 23 <= s <= 31 || s == 127 || s == 220 || s == 249,
        HUFFMAN_CODES@[s].2 == 30 <==> s == 10 || s == 13 || s == 22 || s == 256,
{
}

} // verus!
