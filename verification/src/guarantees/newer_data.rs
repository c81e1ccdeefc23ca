//! The characters that older character data has otherwise, range by range.

use crate::pretokenize::unicode::bert;
use vstd::prelude::*;

verus! {

/// The punctuation that older data does not have as such.
pub open spec fn newer_punctuation(cp: u32) -> bool {
    ||| cp == 0x061D || cp == 0x09FD || cp == 0x0A76
    ||| cp == 0x0C77 || cp == 0x0C84 || 0x1B4E <= cp <= 0x1B4F
    ||| 0x1B7D <= cp <= 0x1B7F || 0x2E43 <= cp <= 0x2E4F || 0x2E52 <= cp <= 0x2E5D
    ||| cp == 0x10D6E || cp == 0x10EAD || cp == 0x10ED0
    ||| 0x10F55 <= cp <= 0x10F59 || 0x10F86 <= cp <= 0x10F89 || 0x113D4 <= cp <= 0x113D5
    ||| 0x113D7 <= cp <= 0x113D8 || 0x1144B <= cp <= 0x1144F || 0x1145A <= cp <= 0x1145B
    ||| cp == 0x1145D || 0x11660 <= cp <= 0x1166C || cp == 0x116B9
    ||| cp == 0x1183B || 0x11944 <= cp <= 0x11946 || cp == 0x119E2
    ||| 0x11A3F <= cp <= 0x11A46 || 0x11A9A <= cp <= 0x11A9C || 0x11A9E <= cp <= 0x11AA2
    ||| 0x11B00 <= cp <= 0x11B09 || cp == 0x11BE1 || 0x11C41 <= cp <= 0x11C45
    ||| 0x11C70 <= cp <= 0x11C71 || 0x11EF7 <= cp <= 0x11EF8 || 0x11F43 <= cp <= 0x11F4F
    ||| cp == 0x11FFF || 0x12FF1 <= cp <= 0x12FF2 || 0x16D6D <= cp <= 0x16D6F
    ||| 0x16E97 <= cp <= 0x16E9A || cp == 0x16FE2 || cp == 0x1E5FF
    ||| 0x1E95E <= cp <= 0x1E95F
}

/// The marks that older data does not have as such.
pub open spec fn newer_marks(cp: u32) -> bool {
    ||| cp == 0x07FD || 0x0897 <= cp <= 0x089F || 0x08CA <= cp <= 0x08E1
    ||| cp == 0x09FE || 0x0AFA <= cp <= 0x0AFF || cp == 0x0B55
    ||| cp == 0x0C04 || cp == 0x0C3C || cp == 0x0D00
    ||| 0x0D3B <= cp <= 0x0D3C || cp == 0x0D81 || cp == 0x0EBA
    ||| cp == 0x0ECE || cp == 0x180F || 0x1885 <= cp <= 0x1886
    ||| 0x1ABF <= cp <= 0x1ADD || 0x1AE0 <= cp <= 0x1AEB || 0x1DF6 <= cp <= 0x1DFB
    ||| cp == 0xA82C || cp == 0xA8C5 || cp == 0xA8FF
    ||| cp == 0xA9BD || 0x10D24 <= cp <= 0x10D27 || 0x10D69 <= cp <= 0x10D6D
    ||| 0x10EAB <= cp <= 0x10EAC || 0x10EFA <= cp <= 0x10EFF || 0x10F46 <= cp <= 0x10F50
    ||| 0x10F82 <= cp <= 0x10F85 || cp == 0x11070 || 0x11073 <= cp <= 0x11074
    ||| cp == 0x110C2 || cp == 0x111C9 || cp == 0x111CF
    ||| cp == 0x1123E || cp == 0x11241 || cp == 0x1133B
    ||| 0x113BB <= cp <= 0x113C0 || cp == 0x113CE || cp == 0x113D0
    ||| cp == 0x113D2 || 0x113E1 <= cp <= 0x113E2 || 0x11438 <= cp <= 0x1143F
    ||| 0x11442 <= cp <= 0x11444 || cp == 0x11446 || cp == 0x1145E
    ||| 0x1182F <= cp <= 0x11837 || 0x11839 <= cp <= 0x1183A || 0x1193B <= cp <= 0x1193C
    ||| cp == 0x1193E || cp == 0x11943 || 0x119D4 <= cp <= 0x119D7
    ||| 0x119DA <= cp <= 0x119DB || cp == 0x119E0 || 0x11A01 <= cp <= 0x11A0A
    ||| 0x11A33 <= cp <= 0x11A38 || 0x11A3B <= cp <= 0x11A3E || cp == 0x11A47
    ||| 0x11A51 <= cp <= 0x11A56 || 0x11A59 <= cp <= 0x11A5B || 0x11A8A <= cp <= 0x11A96
    ||| 0x11A98 <= cp <= 0x11A99 || cp == 0x11B60 || 0x11B62 <= cp <= 0x11B64
    ||| cp == 0x11B66 || 0x11C30 <= cp <= 0x11C36 || 0x11C38 <= cp <= 0x11C3D
    ||| cp == 0x11C3F || 0x11C92 <= cp <= 0x11CA7 || 0x11CAA <= cp <= 0x11CB0
    ||| 0x11CB2 <= cp <= 0x11CB3 || 0x11CB5 <= cp <= 0x11CB6 || 0x11D31 <= cp <= 0x11D36
    ||| cp == 0x11D3A || 0x11D3C <= cp <= 0x11D3D || 0x11D3F <= cp <= 0x11D45
    ||| cp == 0x11D47 || 0x11D90 <= cp <= 0x11D91 || cp == 0x11D95
    ||| cp == 0x11D97 || 0x11EF3 <= cp <= 0x11EF4 || 0x11F00 <= cp <= 0x11F01
    ||| 0x11F36 <= cp <= 0x11F3A || cp == 0x11F40 || cp == 0x11F42
    ||| cp == 0x11F5A || cp == 0x13440 || 0x13447 <= cp <= 0x13455
    ||| 0x1611E <= cp <= 0x16129 || 0x1612D <= cp <= 0x1612F || cp == 0x16F4F
    ||| cp == 0x16FE4 || 0x1CF00 <= cp <= 0x1CF2D || 0x1CF30 <= cp <= 0x1CF46
    ||| 0x1E000 <= cp <= 0x1E006 || 0x1E008 <= cp <= 0x1E018 || 0x1E01B <= cp <= 0x1E021
    ||| 0x1E023 <= cp <= 0x1E024 || 0x1E026 <= cp <= 0x1E02A || cp == 0x1E08F
    ||| 0x1E130 <= cp <= 0x1E136 || cp == 0x1E2AE || 0x1E2EC <= cp <= 0x1E2EF
    ||| 0x1E4EC <= cp <= 0x1E4EF || 0x1E5EE <= cp <= 0x1E5EF || cp == 0x1E6E3
    ||| cp == 0x1E6E6 || 0x1E6EE <= cp <= 0x1E6EF || cp == 0x1E6F5
    ||| 0x1E944 <= cp <= 0x1E94A
}

/// The listed punctuation is exactly that.
pub proof fn law_newer_punctuation(cp: u32)
    ensures
        bert::listed(bert::BERT_STALE_NOT_PUNCT@, cp) <==> newer_punctuation(cp),
{
    let list = bert::BERT_STALE_NOT_PUNCT@;
    assert(list.len() == 141);
    assert(list[0] == 0x061D);
    assert(list[1] == 0x09FD);
    assert(list[2] == 0x0A76);
    assert(list[3] == 0x0C77);
    assert(list[4] == 0x0C84);
    assert(forall|k: int| 5 <= k < 7 ==> list[k] == 0x1B4E + (k - 5));
    assert(forall|k: int| 7 <= k < 10 ==> list[k] == 0x1B7D + (k - 7));
    assert(forall|k: int| 10 <= k < 23 ==> list[k] == 0x2E43 + (k - 10));
    assert(forall|k: int| 23 <= k < 35 ==> list[k] == 0x2E52 + (k - 23));
    assert(list[35] == 0x10D6E);
    assert(list[36] == 0x10EAD);
    assert(list[37] == 0x10ED0);
    assert(forall|k: int| 38 <= k < 43 ==> list[k] == 0x10F55 + (k - 38));
    assert(forall|k: int| 43 <= k < 47 ==> list[k] == 0x10F86 + (k - 43));
    assert(forall|k: int| 47 <= k < 49 ==> list[k] == 0x113D4 + (k - 47));
    assert(forall|k: int| 49 <= k < 51 ==> list[k] == 0x113D7 + (k - 49));
    assert(forall|k: int| 51 <= k < 56 ==> list[k] == 0x1144B + (k - 51));
    assert(forall|k: int| 56 <= k < 58 ==> list[k] == 0x1145A + (k - 56));
    assert(list[58] == 0x1145D);
    assert(forall|k: int| 59 <= k < 72 ==> list[k] == 0x11660 + (k - 59));
    assert(list[72] == 0x116B9);
    assert(list[73] == 0x1183B);
    assert(forall|k: int| 74 <= k < 77 ==> list[k] == 0x11944 + (k - 74));
    assert(list[77] == 0x119E2);
    assert(forall|k: int| 78 <= k < 86 ==> list[k] == 0x11A3F + (k - 78));
    assert(forall|k: int| 86 <= k < 89 ==> list[k] == 0x11A9A + (k - 86));
    assert(forall|k: int| 89 <= k < 94 ==> list[k] == 0x11A9E + (k - 89));
    assert(forall|k: int| 94 <= k < 104 ==> list[k] == 0x11B00 + (k - 94));
    assert(list[104] == 0x11BE1);
    assert(forall|k: int| 105 <= k < 110 ==> list[k] == 0x11C41 + (k - 105));
    assert(forall|k: int| 110 <= k < 112 ==> list[k] == 0x11C70 + (k - 110));
    assert(forall|k: int| 112 <= k < 114 ==> list[k] == 0x11EF7 + (k - 112));
    assert(forall|k: int| 114 <= k < 127 ==> list[k] == 0x11F43 + (k - 114));
    assert(list[127] == 0x11FFF);
    assert(forall|k: int| 128 <= k < 130 ==> list[k] == 0x12FF1 + (k - 128));
    assert(forall|k: int| 130 <= k < 133 ==> list[k] == 0x16D6D + (k - 130));
    assert(forall|k: int| 133 <= k < 137 ==> list[k] == 0x16E97 + (k - 133));
    assert(list[137] == 0x16FE2);
    assert(list[138] == 0x1E5FF);
    assert(forall|k: int| 139 <= k < 141 ==> list[k] == 0x1E95E + (k - 139));
    if 0x1B4E <= cp <= 0x1B4F {
        assert(list[cp - 0x1B4E + 5] == cp);
    }
    if 0x1B7D <= cp <= 0x1B7F {
        assert(list[cp - 0x1B7D + 7] == cp);
    }
    if 0x2E43 <= cp <= 0x2E4F {
        assert(list[cp - 0x2E43 + 10] == cp);
    }
    if 0x2E52 <= cp <= 0x2E5D {
        assert(list[cp - 0x2E52 + 23] == cp);
    }
    if 0x10F55 <= cp <= 0x10F59 {
        assert(list[cp - 0x10F55 + 38] == cp);
    }
    if 0x10F86 <= cp <= 0x10F89 {
        assert(list[cp - 0x10F86 + 43] == cp);
    }
    if 0x113D4 <= cp <= 0x113D5 {
        assert(list[cp - 0x113D4 + 47] == cp);
    }
    if 0x113D7 <= cp <= 0x113D8 {
        assert(list[cp - 0x113D7 + 49] == cp);
    }
    if 0x1144B <= cp <= 0x1144F {
        assert(list[cp - 0x1144B + 51] == cp);
    }
    if 0x1145A <= cp <= 0x1145B {
        assert(list[cp - 0x1145A + 56] == cp);
    }
    if 0x11660 <= cp <= 0x1166C {
        assert(list[cp - 0x11660 + 59] == cp);
    }
    if 0x11944 <= cp <= 0x11946 {
        assert(list[cp - 0x11944 + 74] == cp);
    }
    if 0x11A3F <= cp <= 0x11A46 {
        assert(list[cp - 0x11A3F + 78] == cp);
    }
    if 0x11A9A <= cp <= 0x11A9C {
        assert(list[cp - 0x11A9A + 86] == cp);
    }
    if 0x11A9E <= cp <= 0x11AA2 {
        assert(list[cp - 0x11A9E + 89] == cp);
    }
    if 0x11B00 <= cp <= 0x11B09 {
        assert(list[cp - 0x11B00 + 94] == cp);
    }
    if 0x11C41 <= cp <= 0x11C45 {
        assert(list[cp - 0x11C41 + 105] == cp);
    }
    if 0x11C70 <= cp <= 0x11C71 {
        assert(list[cp - 0x11C70 + 110] == cp);
    }
    if 0x11EF7 <= cp <= 0x11EF8 {
        assert(list[cp - 0x11EF7 + 112] == cp);
    }
    if 0x11F43 <= cp <= 0x11F4F {
        assert(list[cp - 0x11F43 + 114] == cp);
    }
    if 0x12FF1 <= cp <= 0x12FF2 {
        assert(list[cp - 0x12FF1 + 128] == cp);
    }
    if 0x16D6D <= cp <= 0x16D6F {
        assert(list[cp - 0x16D6D + 130] == cp);
    }
    if 0x16E97 <= cp <= 0x16E9A {
        assert(list[cp - 0x16E97 + 133] == cp);
    }
    if 0x1E95E <= cp <= 0x1E95F {
        assert(list[cp - 0x1E95E + 139] == cp);
    }
}

/// The listed marks are exactly those.
pub proof fn law_newer_marks(cp: u32)
    ensures
        bert::listed(bert::BERT_STALE_NOT_MARK@, cp) <==> newer_marks(cp),
{
    let list = bert::BERT_STALE_NOT_MARK@;
    assert(list.len() == 494);
    assert(list[0] == 0x07FD);
    assert(forall|k: int| 1 <= k < 10 ==> list[k] == 0x0897 + (k - 1));
    assert(forall|k: int| 10 <= k < 34 ==> list[k] == 0x08CA + (k - 10));
    assert(list[34] == 0x09FE);
    assert(forall|k: int| 35 <= k < 41 ==> list[k] == 0x0AFA + (k - 35));
    assert(list[41] == 0x0B55);
    assert(list[42] == 0x0C04);
    assert(list[43] == 0x0C3C);
    assert(list[44] == 0x0D00);
    assert(forall|k: int| 45 <= k < 47 ==> list[k] == 0x0D3B + (k - 45));
    assert(list[47] == 0x0D81);
    assert(list[48] == 0x0EBA);
    assert(list[49] == 0x0ECE);
    assert(list[50] == 0x180F);
    assert(forall|k: int| 51 <= k < 53 ==> list[k] == 0x1885 + (k - 51));
    assert(forall|k: int| 53 <= k < 84 ==> list[k] == 0x1ABF + (k - 53));
    assert(forall|k: int| 84 <= k < 96 ==> list[k] == 0x1AE0 + (k - 84));
    assert(forall|k: int| 96 <= k < 102 ==> list[k] == 0x1DF6 + (k - 96));
    assert(list[102] == 0xA82C);
    assert(list[103] == 0xA8C5);
    assert(list[104] == 0xA8FF);
    assert(list[105] == 0xA9BD);
    assert(forall|k: int| 106 <= k < 110 ==> list[k] == 0x10D24 + (k - 106));
    assert(forall|k: int| 110 <= k < 115 ==> list[k] == 0x10D69 + (k - 110));
    assert(forall|k: int| 115 <= k < 117 ==> list[k] == 0x10EAB + (k - 115));
    assert(forall|k: int| 117 <= k < 123 ==> list[k] == 0x10EFA + (k - 117));
    assert(forall|k: int| 123 <= k < 134 ==> list[k] == 0x10F46 + (k - 123));
    assert(forall|k: int| 134 <= k < 138 ==> list[k] == 0x10F82 + (k - 134));
    assert(list[138] == 0x11070);
    assert(forall|k: int| 139 <= k < 141 ==> list[k] == 0x11073 + (k - 139));
    assert(list[141] == 0x110C2);
    assert(list[142] == 0x111C9);
    assert(list[143] == 0x111CF);
    assert(list[144] == 0x1123E);
    assert(list[145] == 0x11241);
    assert(list[146] == 0x1133B);
    assert(forall|k: int| 147 <= k < 153 ==> list[k] == 0x113BB + (k - 147));
    assert(list[153] == 0x113CE);
    assert(list[154] == 0x113D0);
    assert(list[155] == 0x113D2);
    assert(forall|k: int| 156 <= k < 158 ==> list[k] == 0x113E1 + (k - 156));
    assert(forall|k: int| 158 <= k < 166 ==> list[k] == 0x11438 + (k - 158));
    assert(forall|k: int| 166 <= k < 169 ==> list[k] == 0x11442 + (k - 166));
    assert(list[169] == 0x11446);
    assert(list[170] == 0x1145E);
    assert(forall|k: int| 171 <= k < 180 ==> list[k] == 0x1182F + (k - 171));
    assert(forall|k: int| 180 <= k < 182 ==> list[k] == 0x11839 + (k - 180));
    assert(forall|k: int| 182 <= k < 184 ==> list[k] == 0x1193B + (k - 182));
    assert(list[184] == 0x1193E);
    assert(list[185] == 0x11943);
    assert(forall|k: int| 186 <= k < 190 ==> list[k] == 0x119D4 + (k - 186));
    assert(forall|k: int| 190 <= k < 192 ==> list[k] == 0x119DA + (k - 190));
    assert(list[192] == 0x119E0);
    assert(forall|k: int| 193 <= k < 203 ==> list[k] == 0x11A01 + (k - 193));
    assert(forall|k: int| 203 <= k < 209 ==> list[k] == 0x11A33 + (k - 203));
    assert(forall|k: int| 209 <= k < 213 ==> list[k] == 0x11A3B + (k - 209));
    assert(list[213] == 0x11A47);
    assert(forall|k: int| 214 <= k < 220 ==> list[k] == 0x11A51 + (k - 214));
    assert(forall|k: int| 220 <= k < 223 ==> list[k] == 0x11A59 + (k - 220));
    assert(forall|k: int| 223 <= k < 236 ==> list[k] == 0x11A8A + (k - 223));
    assert(forall|k: int| 236 <= k < 238 ==> list[k] == 0x11A98 + (k - 236));
    assert(list[238] == 0x11B60);
    assert(forall|k: int| 239 <= k < 242 ==> list[k] == 0x11B62 + (k - 239));
    assert(list[242] == 0x11B66);
    assert(forall|k: int| 243 <= k < 250 ==> list[k] == 0x11C30 + (k - 243));
    assert(forall|k: int| 250 <= k < 256 ==> list[k] == 0x11C38 + (k - 250));
    assert(list[256] == 0x11C3F);
    assert(forall|k: int| 257 <= k < 279 ==> list[k] == 0x11C92 + (k - 257));
    assert(forall|k: int| 279 <= k < 286 ==> list[k] == 0x11CAA + (k - 279));
    assert(forall|k: int| 286 <= k < 288 ==> list[k] == 0x11CB2 + (k - 286));
    assert(forall|k: int| 288 <= k < 290 ==> list[k] == 0x11CB5 + (k - 288));
    assert(forall|k: int| 290 <= k < 296 ==> list[k] == 0x11D31 + (k - 290));
    assert(list[296] == 0x11D3A);
    assert(forall|k: int| 297 <= k < 299 ==> list[k] == 0x11D3C + (k - 297));
    assert(forall|k: int| 299 <= k < 306 ==> list[k] == 0x11D3F + (k - 299));
    assert(list[306] == 0x11D47);
    assert(forall|k: int| 307 <= k < 309 ==> list[k] == 0x11D90 + (k - 307));
    assert(list[309] == 0x11D95);
    assert(list[310] == 0x11D97);
    assert(forall|k: int| 311 <= k < 313 ==> list[k] == 0x11EF3 + (k - 311));
    assert(forall|k: int| 313 <= k < 315 ==> list[k] == 0x11F00 + (k - 313));
    assert(forall|k: int| 315 <= k < 320 ==> list[k] == 0x11F36 + (k - 315));
    assert(list[320] == 0x11F40);
    assert(list[321] == 0x11F42);
    assert(list[322] == 0x11F5A);
    assert(list[323] == 0x13440);
    assert(forall|k: int| 324 <= k < 339 ==> list[k] == 0x13447 + (k - 324));
    assert(forall|k: int| 339 <= k < 351 ==> list[k] == 0x1611E + (k - 339));
    assert(forall|k: int| 351 <= k < 354 ==> list[k] == 0x1612D + (k - 351));
    assert(list[354] == 0x16F4F);
    assert(list[355] == 0x16FE4);
    assert(forall|k: int| 356 <= k < 402 ==> list[k] == 0x1CF00 + (k - 356));
    assert(forall|k: int| 402 <= k < 425 ==> list[k] == 0x1CF30 + (k - 402));
    assert(forall|k: int| 425 <= k < 432 ==> list[k] == 0x1E000 + (k - 425));
    assert(forall|k: int| 432 <= k < 449 ==> list[k] == 0x1E008 + (k - 432));
    assert(forall|k: int| 449 <= k < 456 ==> list[k] == 0x1E01B + (k - 449));
    assert(forall|k: int| 456 <= k < 458 ==> list[k] == 0x1E023 + (k - 456));
    assert(forall|k: int| 458 <= k < 463 ==> list[k] == 0x1E026 + (k - 458));
    assert(list[463] == 0x1E08F);
    assert(forall|k: int| 464 <= k < 471 ==> list[k] == 0x1E130 + (k - 464));
    assert(list[471] == 0x1E2AE);
    assert(forall|k: int| 472 <= k < 476 ==> list[k] == 0x1E2EC + (k - 472));
    assert(forall|k: int| 476 <= k < 480 ==> list[k] == 0x1E4EC + (k - 476));
    assert(forall|k: int| 480 <= k < 482 ==> list[k] == 0x1E5EE + (k - 480));
    assert(list[482] == 0x1E6E3);
    assert(list[483] == 0x1E6E6);
    assert(forall|k: int| 484 <= k < 486 ==> list[k] == 0x1E6EE + (k - 484));
    assert(list[486] == 0x1E6F5);
    assert(forall|k: int| 487 <= k < 494 ==> list[k] == 0x1E944 + (k - 487));
    if 0x0897 <= cp <= 0x089F {
        assert(list[cp - 0x0897 + 1] == cp);
    }
    if 0x08CA <= cp <= 0x08E1 {
        assert(list[cp - 0x08CA + 10] == cp);
    }
    if 0x0AFA <= cp <= 0x0AFF {
        assert(list[cp - 0x0AFA + 35] == cp);
    }
    if 0x0D3B <= cp <= 0x0D3C {
        assert(list[cp - 0x0D3B + 45] == cp);
    }
    if 0x1885 <= cp <= 0x1886 {
        assert(list[cp - 0x1885 + 51] == cp);
    }
    if 0x1ABF <= cp <= 0x1ADD {
        assert(list[cp - 0x1ABF + 53] == cp);
    }
    if 0x1AE0 <= cp <= 0x1AEB {
        assert(list[cp - 0x1AE0 + 84] == cp);
    }
    if 0x1DF6 <= cp <= 0x1DFB {
        assert(list[cp - 0x1DF6 + 96] == cp);
    }
    if 0x10D24 <= cp <= 0x10D27 {
        assert(list[cp - 0x10D24 + 106] == cp);
    }
    if 0x10D69 <= cp <= 0x10D6D {
        assert(list[cp - 0x10D69 + 110] == cp);
    }
    if 0x10EAB <= cp <= 0x10EAC {
        assert(list[cp - 0x10EAB + 115] == cp);
    }
    if 0x10EFA <= cp <= 0x10EFF {
        assert(list[cp - 0x10EFA + 117] == cp);
    }
    if 0x10F46 <= cp <= 0x10F50 {
        assert(list[cp - 0x10F46 + 123] == cp);
    }
    if 0x10F82 <= cp <= 0x10F85 {
        assert(list[cp - 0x10F82 + 134] == cp);
    }
    if 0x11073 <= cp <= 0x11074 {
        assert(list[cp - 0x11073 + 139] == cp);
    }
    if 0x113BB <= cp <= 0x113C0 {
        assert(list[cp - 0x113BB + 147] == cp);
    }
    if 0x113E1 <= cp <= 0x113E2 {
        assert(list[cp - 0x113E1 + 156] == cp);
    }
    if 0x11438 <= cp <= 0x1143F {
        assert(list[cp - 0x11438 + 158] == cp);
    }
    if 0x11442 <= cp <= 0x11444 {
        assert(list[cp - 0x11442 + 166] == cp);
    }
    if 0x1182F <= cp <= 0x11837 {
        assert(list[cp - 0x1182F + 171] == cp);
    }
    if 0x11839 <= cp <= 0x1183A {
        assert(list[cp - 0x11839 + 180] == cp);
    }
    if 0x1193B <= cp <= 0x1193C {
        assert(list[cp - 0x1193B + 182] == cp);
    }
    if 0x119D4 <= cp <= 0x119D7 {
        assert(list[cp - 0x119D4 + 186] == cp);
    }
    if 0x119DA <= cp <= 0x119DB {
        assert(list[cp - 0x119DA + 190] == cp);
    }
    if 0x11A01 <= cp <= 0x11A0A {
        assert(list[cp - 0x11A01 + 193] == cp);
    }
    if 0x11A33 <= cp <= 0x11A38 {
        assert(list[cp - 0x11A33 + 203] == cp);
    }
    if 0x11A3B <= cp <= 0x11A3E {
        assert(list[cp - 0x11A3B + 209] == cp);
    }
    if 0x11A51 <= cp <= 0x11A56 {
        assert(list[cp - 0x11A51 + 214] == cp);
    }
    if 0x11A59 <= cp <= 0x11A5B {
        assert(list[cp - 0x11A59 + 220] == cp);
    }
    if 0x11A8A <= cp <= 0x11A96 {
        assert(list[cp - 0x11A8A + 223] == cp);
    }
    if 0x11A98 <= cp <= 0x11A99 {
        assert(list[cp - 0x11A98 + 236] == cp);
    }
    if 0x11B62 <= cp <= 0x11B64 {
        assert(list[cp - 0x11B62 + 239] == cp);
    }
    if 0x11C30 <= cp <= 0x11C36 {
        assert(list[cp - 0x11C30 + 243] == cp);
    }
    if 0x11C38 <= cp <= 0x11C3D {
        assert(list[cp - 0x11C38 + 250] == cp);
    }
    if 0x11C92 <= cp <= 0x11CA7 {
        assert(list[cp - 0x11C92 + 257] == cp);
    }
    if 0x11CAA <= cp <= 0x11CB0 {
        assert(list[cp - 0x11CAA + 279] == cp);
    }
    if 0x11CB2 <= cp <= 0x11CB3 {
        assert(list[cp - 0x11CB2 + 286] == cp);
    }
    if 0x11CB5 <= cp <= 0x11CB6 {
        assert(list[cp - 0x11CB5 + 288] == cp);
    }
    if 0x11D31 <= cp <= 0x11D36 {
        assert(list[cp - 0x11D31 + 290] == cp);
    }
    if 0x11D3C <= cp <= 0x11D3D {
        assert(list[cp - 0x11D3C + 297] == cp);
    }
    if 0x11D3F <= cp <= 0x11D45 {
        assert(list[cp - 0x11D3F + 299] == cp);
    }
    if 0x11D90 <= cp <= 0x11D91 {
        assert(list[cp - 0x11D90 + 307] == cp);
    }
    if 0x11EF3 <= cp <= 0x11EF4 {
        assert(list[cp - 0x11EF3 + 311] == cp);
    }
    if 0x11F00 <= cp <= 0x11F01 {
        assert(list[cp - 0x11F00 + 313] == cp);
    }
    if 0x11F36 <= cp <= 0x11F3A {
        assert(list[cp - 0x11F36 + 315] == cp);
    }
    if 0x13447 <= cp <= 0x13455 {
        assert(list[cp - 0x13447 + 324] == cp);
    }
    if 0x1611E <= cp <= 0x16129 {
        assert(list[cp - 0x1611E + 339] == cp);
    }
    if 0x1612D <= cp <= 0x1612F {
        assert(list[cp - 0x1612D + 351] == cp);
    }
    if 0x1CF00 <= cp <= 0x1CF2D {
        assert(list[cp - 0x1CF00 + 356] == cp);
    }
    if 0x1CF30 <= cp <= 0x1CF46 {
        assert(list[cp - 0x1CF30 + 402] == cp);
    }
    if 0x1E000 <= cp <= 0x1E006 {
        assert(list[cp - 0x1E000 + 425] == cp);
    }
    if 0x1E008 <= cp <= 0x1E018 {
        assert(list[cp - 0x1E008 + 432] == cp);
    }
    if 0x1E01B <= cp <= 0x1E021 {
        assert(list[cp - 0x1E01B + 449] == cp);
    }
    if 0x1E023 <= cp <= 0x1E024 {
        assert(list[cp - 0x1E023 + 456] == cp);
    }
    if 0x1E026 <= cp <= 0x1E02A {
        assert(list[cp - 0x1E026 + 458] == cp);
    }
    if 0x1E130 <= cp <= 0x1E136 {
        assert(list[cp - 0x1E130 + 464] == cp);
    }
    if 0x1E2EC <= cp <= 0x1E2EF {
        assert(list[cp - 0x1E2EC + 472] == cp);
    }
    if 0x1E4EC <= cp <= 0x1E4EF {
        assert(list[cp - 0x1E4EC + 476] == cp);
    }
    if 0x1E5EE <= cp <= 0x1E5EF {
        assert(list[cp - 0x1E5EE + 480] == cp);
    }
    if 0x1E6EE <= cp <= 0x1E6EF {
        assert(list[cp - 0x1E6EE + 484] == cp);
    }
    if 0x1E944 <= cp <= 0x1E94A {
        assert(list[cp - 0x1E944 + 487] == cp);
    }
}

} // verus!
