//! Multipliers for the hash of the blocking pieces, one per square, found by
//! search: with them no two sets of blockers that give different attacks
//! share a slot of the table.
use vstd::prelude::*;

verus! {

/// The multipliers for the rook, by square.
pub const ROOK_MAGIC_NUMBERS: [u64; 64] = [
    0x1080004008801020, 0x0840092002C03000, 0x1900200010400900, 0x0880100008000480,
    0x4200100420080200, 0x8100020100080400, 0x0200040110886200, 0x0200008040220411,
    0x0404800084400220, 0x0000401000402000, 0x0086001081220440, 0x0408800800100280,
    0x000A001201040820, 0x8848800200840080, 0x4001000100040200, 0x0442000102105084,
    0x9080010020804100, 0x0040404000201009, 0x0000808010002009, 0x2200090021D00100,
    0x0008008008040080, 0x0004004002010040, 0x0011040008015042, 0x00000A0001768104,
    0x0000800080204009, 0x2010004140002001, 0x9800200280100080, 0x1000100080080080,
    0x0442000A00049020, 0x2100040080020080, 0x0800120400900148, 0x0010040A00128541,
    0x2800804000800030, 0x1010002000400041, 0x4000200011004100, 0x0610008410800800,
    0x0400802402800800, 0xC100020080800400, 0x0002000802000401, 0x0182085882000401,
    0x0220204000808000, 0x2860100040024022, 0x0001002004110040, 0x99101042000A0020,
    0x0004080004008080, 0x0010040002008080, 0x2012004881020004, 0x8300842444820011,
    0x0088403882010200, 0x0820400080210100, 0x0110910040A00300, 0x0801100280080480,
    0x0242009008200600, 0x1002000489500200, 0x0040800200010080, 0x0091800041000080,
    0x0000209300488001, 0x04C1002414824001, 0x020020000B001041, 0x7000100004200901,
    0x8002002004100802, 0x30010002084C0007, 0x0888221800813004, 0x4000002840840112,
];

/// The multipliers for the bishop, by square.
pub const BISHOP_MAGIC_NUMBERS: [u64; 64] = [
    0xA010041108003100, 0x006082020A002900, 0x6810010619200000, 0x08281A0520000408,
    0x0001104001000400, 0x0018901008048400, 0x00040A0210245280, 0x000200210808A402,
    0x9140048410821200, 0x0800091010820041, 0x20504804832202C0, 0x0100091401081000,
    0x8021011140000012, 0x0810020804450400, 0x208B0542109008A2, 0x0080084A08040204,
    0x0040E2A80811244C, 0x2505022008008108, 0x0430220100420040, 0x010A040420220040,
    0x1105000290400000, 0x0093001200822120, 0x4000A62048043004, 0x280120048A015004,
    0x006090002A020814, 0x44042000240800D0, 0x01102800040A4400, 0x1004080080220040,
    0x0001001011004024, 0x0010044000805040, 0x0914041200820100, 0x0004821012821480,
    0x0024040500C05021, 0x0088611002080200, 0x0116080A00040020, 0x4000020080080080,
    0x2450450140840040, 0x0000880201484100, 0x0222020404020092, 0x8081110600002E00,
    0x2842101105000801, 0x1100809008001025, 0x00020202221C0400, 0x0422014022009020,
    0x0210046102100C00, 0xC004008082029102, 0x00AA461801101200, 0x0404080080201108,
    0x020542108C205002, 0x0410544804100100, 0x0040910841100000, 0x0400200042021100,
    0x00004204850400C0, 0x0200100410A42102, 0x1040020801210102, 0x0805040410420000,
    0x2884804130100200, 0x800C262201242000, 0x1058000194108800, 0x0014221054420204,
    0x0104000012A02200, 0x0200881003300100, 0x0140400202840100, 0x0402020801010201,
];

} // verus!
