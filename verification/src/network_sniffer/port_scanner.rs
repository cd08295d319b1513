//! The default list of TCP ports probed by a quick device scan.
use vstd::prelude::*;

verus! {

/// The ports probed by a quick scan, in ascending order.
pub open spec fn top_port_list() -> Seq<u16> {
    seq![
        7u16, 9, 13, 21, 22, 23, 25, 26, 37, 53, 79, 80, 81, 88, 106,
        110, 111, 113, 119, 135, 139, 143, 144, 179, 199, 389, 427,
        443, 444, 445, 465, 513, 514, 515, 543, 544, 548, 554, 587,
        631, 646, 873, 990, 993, 995, 1025, 1026, 1027, 1028, 1029,
        1110, 1433, 1720, 1723, 1755, 1900, 2000, 2001, 2049, 2121,
        2717, 3000, 3128, 3306, 3389, 3986, 4899, 5000, 5009, 5051,
        5060, 5101, 5190, 5357, 5432, 5631, 5666, 5800, 5900, 6000,
        6001, 6646, 7070, 8000, 8008, 8009, 8080, 8443, 8888, 9000,
        9001, 9090, 9100, 9999, 10000, 32768, 49152, 49153, 49154,
        49155, 49156
    ]
}

/// The ports a quick scan probes.
pub fn top_ports() -> (r: Vec<u16>)
    ensures
        r@ == top_port_list(),
{
    let r: Vec<u16> = vec![
        7, 9, 13, 21, 22, 23, 25, 26, 37, 53, 79, 80, 81, 88, 106,
        110, 111, 113, 119, 135, 139, 143, 144, 179, 199, 389, 427,
        443, 444, 445, 465, 513, 514, 515, 543, 544, 548, 554, 587,
        631, 646, 873, 990, 993, 995, 1025, 1026, 1027, 1028, 1029,
        1110, 1433, 1720, 1723, 1755, 1900, 2000, 2001, 2049, 2121,
        2717, 3000, 3128, 3306, 3389, 3986, 4899, 5000, 5009, 5051,
        5060, 5101, 5190, 5357, 5432, 5631, 5666, 5800, 5900, 6000,
        6001, 6646, 7070, 8000, 8008, 8009, 8080, 8443, 8888, 9000,
        9001, 9090, 9100, 9999, 10000, 32768, 49152, 49153, 49154,
        49155, 49156,
    ];
    assert(r@ =~= top_port_list());
    r
}


/// Increasing neighbours make the whole list increasing.
proof fn lemma_increasing(s: Seq<u16>, i: int, j: int)
    requires
        forall|k: int| 0 <= k < s.len() - 1 ==> #[trigger] s[k] < s[k + 1],
        0 <= i < j < s.len(),
    ensures
        s[i] < s[j],
    decreases j - i,
{
    assert(s[i] < s[i + 1]);
    if i + 1 < j {
        lemma_increasing(s, i + 1, j);
    }
}

/// The quick-scan list is strictly ascending (so it has no repeated port)
/// and holds the SSH, HTTP and HTTPS ports.
pub proof fn law_top_ports_ascending()
    ensures
        forall|i: int, j: int| 0 <= i < j < top_port_list().len() ==> top_port_list()[i] < top_port_list()[j],
        top_port_list().contains(22u16),
        top_port_list().contains(80u16),
        top_port_list().contains(443u16),
{
    let l = top_port_list();
    assert(l.len() == 101);
    assert(l[0] < l[1]);
    assert(l[1] < l[2]);
    assert(l[2] < l[3]);
    assert(l[3] < l[4]);
    assert(l[4] < l[5]);
    assert(l[5] < l[6]);
    assert(l[6] < l[7]);
    assert(l[7] < l[8]);
    assert(l[8] < l[9]);
    assert(l[9] < l[10]);
    assert(l[10] < l[11]);
    assert(l[11] < l[12]);
    assert(l[12] < l[13]);
    assert(l[13] < l[14]);
    assert(l[14] < l[15]);
    assert(l[15] < l[16]);
    assert(l[16] < l[17]);
    assert(l[17] < l[18]);
    assert(l[18] < l[19]);
    assert(l[19] < l[20]);
    assert(l[20] < l[21]);
    assert(l[21] < l[22]);
    assert(l[22] < l[23]);
    assert(l[23] < l[24]);
    assert(l[24] < l[25]);
    assert(l[25] < l[26]);
    assert(l[26] < l[27]);
    assert(l[27] < l[28]);
    assert(l[28] < l[29]);
    assert(l[29] < l[30]);
    assert(l[30] < l[31]);
    assert(l[31] < l[32]);
    assert(l[32] < l[33]);
    assert(l[33] < l[34]);
    assert(l[34] < l[35]);
    assert(l[35] < l[36]);
    assert(l[36] < l[37]);
    assert(l[37] < l[38]);
    assert(l[38] < l[39]);
    assert(l[39] < l[40]);
    assert(l[40] < l[41]);
    assert(l[41] < l[42]);
    assert(l[42] < l[43]);
    assert(l[43] < l[44]);
    assert(l[44] < l[45]);
    assert(l[45] < l[46]);
    assert(l[46] < l[47]);
    assert(l[47] < l[48]);
    assert(l[48] < l[49]);
    assert(l[49] < l[50]);
    assert(l[50] < l[51]);
    assert(l[51] < l[52]);
    assert(l[52] < l[53]);
    assert(l[53] < l[54]);
    assert(l[54] < l[55]);
    assert(l[55] < l[56]);
    assert(l[56] < l[57]);
    assert(l[57] < l[58]);
    assert(l[58] < l[59]);
    assert(l[59] < l[60]);
    assert(l[60] < l[61]);
    assert(l[61] < l[62]);
    assert(l[62] < l[63]);
    assert(l[63] < l[64]);
    assert(l[64] < l[65]);
    assert(l[65] < l[66]);
    assert(l[66] < l[67]);
    assert(l[67] < l[68]);
    assert(l[68] < l[69]);
    assert(l[69] < l[70]);
    assert(l[70] < l[71]);
    assert(l[71] < l[72]);
    assert(l[72] < l[73]);
    assert(l[73] < l[74]);
    assert(l[74] < l[75]);
    assert(l[75] < l[76]);
    assert(l[76] < l[77]);
    assert(l[77] < l[78]);
    assert(l[78] < l[79]);
    assert(l[79] < l[80]);
    assert(l[80] < l[81]);
    assert(l[81] < l[82]);
    assert(l[82] < l[83]);
    assert(l[83] < l[84]);
    assert(l[84] < l[85]);
    assert(l[85] < l[86]);
    assert(l[86] < l[87]);
    assert(l[87] < l[88]);
    assert(l[88] < l[89]);
    assert(l[89] < l[90]);
    assert(l[90] < l[91]);
    assert(l[91] < l[92]);
    assert(l[92] < l[93]);
    assert(l[93] < l[94]);
    assert(l[94] < l[95]);
    assert(l[95] < l[96]);
    assert(l[96] < l[97]);
    assert(l[97] < l[98]);
    assert(l[98] < l[99]);
    assert(l[99] < l[100]);
    assert forall|k: int| 0 <= k < l.len() - 1 implies #[trigger] l[k] < l[k + 1] by {
        assert(0 <= k < 100);
    }
    assert forall|i: int, j: int| 0 <= i < j < l.len() implies l[i] < l[j] by {
        lemma_increasing(l, i, j);
    }
    assert(l[4] == 22u16 && l[11] == 80u16 && l[27] == 443u16);
}

} // verus!
