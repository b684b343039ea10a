//! The candidate wheel: a fixed cycle of 48 increments that, applied
//! repeatedly, visits exactly the integers coprime to 210 = 2 * 3 * 5 * 7,
//! in increasing order.  The generator draws its candidates from it, so
//! multiples of 2, 3, 5 and 7 are never even tested.

use vstd::prelude::*;
use crate::arith::{coprime210, lemma_add_mod210, lemma_coprime_mod210};

verus! {

/// The increment the wheel applies when its cursor stands at `i`.
pub open spec fn wheel_inc(i: int) -> int {

    if i == 0 {
        2
    } else if i == 1 {
        4
    } else if i == 2 {
        2
    } else if i == 3 {
        4
    } else if i == 4 {
        6
    } else if i == 5 {
        2
    } else if i == 6 {
        6
    } else if i == 7 {
        4
    } else if i == 8 {
        2
    } else if i == 9 {
        4
    } else if i == 10 {
        6
    } else if i == 11 {
        6
    } else if i == 12 {
        2
    } else if i == 13 {
        6
    } else if i == 14 {
        4
    } else if i == 15 {
        2
    } else if i == 16 {
        6
    } else if i == 17 {
        4
    } else if i == 18 {
        6
    } else if i == 19 {
        8
    } else if i == 20 {
        4
    } else if i == 21 {
        2
    } else if i == 22 {
        4
    } else if i == 23 {
        2
    } else if i == 24 {
        4
    } else if i == 25 {
        8
    } else if i == 26 {
        6
    } else if i == 27 {
        4
    } else if i == 28 {
        6
    } else if i == 29 {
        2
    } else if i == 30 {
        4
    } else if i == 31 {
        6
    } else if i == 32 {
        2
    } else if i == 33 {
        6
    } else if i == 34 {
        6
    } else if i == 35 {
        4
    } else if i == 36 {
        2
    } else if i == 37 {
        4
    } else if i == 38 {
        6
    } else if i == 39 {
        2
    } else if i == 40 {
        6
    } else if i == 41 {
        4
    } else if i == 42 {
        2
    } else if i == 43 {
        4
    } else if i == 44 {
        2
    } else if i == 45 {
        10
    } else if i == 46 {
        2
    } else {
        10
    }
}

/// The `k`th residue modulo 210 coprime to 210, in increasing order;
/// the wheel's value always carries one of these residues.
pub open spec fn wheel_res(k: int) -> int {

    if k == 0 {
        1
    } else if k == 1 {
        11
    } else if k == 2 {
        13
    } else if k == 3 {
        17
    } else if k == 4 {
        19
    } else if k == 5 {
        23
    } else if k == 6 {
        29
    } else if k == 7 {
        31
    } else if k == 8 {
        37
    } else if k == 9 {
        41
    } else if k == 10 {
        43
    } else if k == 11 {
        47
    } else if k == 12 {
        53
    } else if k == 13 {
        59
    } else if k == 14 {
        61
    } else if k == 15 {
        67
    } else if k == 16 {
        71
    } else if k == 17 {
        73
    } else if k == 18 {
        79
    } else if k == 19 {
        83
    } else if k == 20 {
        89
    } else if k == 21 {
        97
    } else if k == 22 {
        101
    } else if k == 23 {
        103
    } else if k == 24 {
        107
    } else if k == 25 {
        109
    } else if k == 26 {
        113
    } else if k == 27 {
        121
    } else if k == 28 {
        127
    } else if k == 29 {
        131
    } else if k == 30 {
        137
    } else if k == 31 {
        139
    } else if k == 32 {
        143
    } else if k == 33 {
        149
    } else if k == 34 {
        151
    } else if k == 35 {
        157
    } else if k == 36 {
        163
    } else if k == 37 {
        167
    } else if k == 38 {
        169
    } else if k == 39 {
        173
    } else if k == 40 {
        179
    } else if k == 41 {
        181
    } else if k == 42 {
        187
    } else if k == 43 {
        191
    } else if k == 44 {
        193
    } else if k == 45 {
        197
    } else if k == 46 {
        199
    } else {
        209
    }
}

/// The cursor position after the one at `i`.
pub open spec fn next_idx(i: int) -> int {
    if i == 47 {
        0
    } else {
        i + 1
    }
}

/// The wheel's increment at cursor `i`, as runnable code.
pub fn wheel_inc_at(i: usize) -> (r: u64)
    requires
        i < 48,
    ensures
        r as int == wheel_inc(i as int),
{

    match i {
        0 => 2,
        1 => 4,
        2 => 2,
        3 => 4,
        4 => 6,
        5 => 2,
        6 => 6,
        7 => 4,
        8 => 2,
        9 => 4,
        10 => 6,
        11 => 6,
        12 => 2,
        13 => 6,
        14 => 4,
        15 => 2,
        16 => 6,
        17 => 4,
        18 => 6,
        19 => 8,
        20 => 4,
        21 => 2,
        22 => 4,
        23 => 2,
        24 => 4,
        25 => 8,
        26 => 6,
        27 => 4,
        28 => 6,
        29 => 2,
        30 => 4,
        31 => 6,
        32 => 2,
        33 => 6,
        34 => 6,
        35 => 4,
        36 => 2,
        37 => 4,
        38 => 6,
        39 => 2,
        40 => 6,
        41 => 4,
        42 => 2,
        43 => 4,
        44 => 2,
        45 => 10,
        46 => 2,
        _ => 10,
    }
}

/// One step of the wheel lands on the next integer coprime to 210 and
/// keeps the cursor/residue correspondence.
pub proof fn lemma_wheel_advance(i: int, s: int)
    requires
        0 <= i < 48,
        1 <= s,
        s % 210 == wheel_res(next_idx(i)),
    ensures
        2 <= wheel_inc(i) <= 10,
        coprime210(s + wheel_inc(i)),
        (s + wheel_inc(i)) % 210 == wheel_res(next_idx(next_idx(i))),
        forall|m: int| s < m < s + wheel_inc(i) ==> !coprime210(m),
{

    if i == 0 {
        lemma_add_mod210(s, 2);
        assert((s + 2) % 210 == 13);
        lemma_coprime_mod210(s + 2);
        assert(coprime210(13));
        assert forall|m: int| s < m < s + 2 implies !coprime210(m) by {
            let j = m - s;
            lemma_add_mod210(s, j);
            lemma_coprime_mod210(m);
            if j == 1 {
                assert(m % 210 == 12);
                assert(!coprime210(12));
            }
            assert(!coprime210(m % 210));
        }
    } else if i == 1 {
        lemma_add_mod210(s, 4);
        assert((s + 4) % 210 == 17);
        lemma_coprime_mod210(s + 4);
        assert(coprime210(17));
        assert forall|m: int| s < m < s + 4 implies !coprime210(m) by {
            let j = m - s;
            lemma_add_mod210(s, j);
            lemma_coprime_mod210(m);
            if j == 1 {
                assert(m % 210 == 14);
                assert(!coprime210(14));
            } else if j == 2 {
                assert(m % 210 == 15);
                assert(!coprime210(15));
            } else if j == 3 {
                assert(m % 210 == 16);
                assert(!coprime210(16));
            }
            assert(!coprime210(m % 210));
        }
    } else if i == 2 {
        lemma_add_mod210(s, 2);
        assert((s + 2) % 210 == 19);
        lemma_coprime_mod210(s + 2);
        assert(coprime210(19));
        assert forall|m: int| s < m < s + 2 implies !coprime210(m) by {
            let j = m - s;
            lemma_add_mod210(s, j);
            lemma_coprime_mod210(m);
            if j == 1 {
                assert(m % 210 == 18);
                assert(!coprime210(18));
            }
            assert(!coprime210(m % 210));
        }
    } else if i == 3 {
        lemma_add_mod210(s, 4);
        assert((s + 4) % 210 == 23);
        lemma_coprime_mod210(s + 4);
        assert(coprime210(23));
        assert forall|m: int| s < m < s + 4 implies !coprime210(m) by {
            let j = m - s;
            lemma_add_mod210(s, j);
            lemma_coprime_mod210(m);
            if j == 1 {
                assert(m % 210 == 20);
                assert(!coprime210(20));
            } else if j == 2 {
                assert(m % 210 == 21);
                assert(!coprime210(21));
            } else if j == 3 {
                assert(m % 210 == 22);
                assert(!coprime210(22));
            }
            assert(!coprime210(m % 210));
        }
    } else if i == 4 {
        lemma_add_mod210(s, 6);
        assert((s + 6) % 210 == 29);
        lemma_coprime_mod210(s + 6);
        assert(coprime210(29));
        assert forall|m: int| s < m < s + 6 implies !coprime210(m) by {
            let j = m - s;
            lemma_add_mod210(s, j);
            lemma_coprime_mod210(m);
            if j == 1 {
                assert(m % 210 == 24);
                assert(!coprime210(24));
            } else if j == 2 {
                assert(m % 210 == 25);
                assert(!coprime210(25));
            } else if j == 3 {
                assert(m % 210 == 26);
                assert(!coprime210(26));
            } else if j == 4 {
                assert(m % 210 == 27);
                assert(!coprime210(27));
            } else if j == 5 {
                assert(m % 210 == 28);
                assert(!coprime210(28));
            }
            assert(!coprime210(m % 210));
        }
    } else if i == 5 {
        lemma_add_mod210(s, 2);
        assert((s + 2) % 210 == 31);
        lemma_coprime_mod210(s + 2);
        assert(coprime210(31));
        assert forall|m: int| s < m < s + 2 implies !coprime210(m) by {
            let j = m - s;
            lemma_add_mod210(s, j);
            lemma_coprime_mod210(m);
            if j == 1 {
                assert(m % 210 == 30);
                assert(!coprime210(30));
            }
            assert(!coprime210(m % 210));
        }
    } else if i == 6 {
        lemma_add_mod210(s, 6);
        assert((s + 6) % 210 == 37);
        lemma_coprime_mod210(s + 6);
        assert(coprime210(37));
        assert forall|m: int| s < m < s + 6 implies !coprime210(m) by {
            let j = m - s;
            lemma_add_mod210(s, j);
            lemma_coprime_mod210(m);
            if j == 1 {
                assert(m % 210 == 32);
                assert(!coprime210(32));
            } else if j == 2 {
                assert(m % 210 == 33);
                assert(!coprime210(33));
            } else if j == 3 {
                assert(m % 210 == 34);
                assert(!coprime210(34));
            } else if j == 4 {
                assert(m % 210 == 35);
                assert(!coprime210(35));
            } else if j == 5 {
                assert(m % 210 == 36);
                assert(!coprime210(36));
            }
            assert(!coprime210(m % 210));
        }
    } else if i == 7 {
        lemma_add_mod210(s, 4);
        assert((s + 4) % 210 == 41);
        lemma_coprime_mod210(s + 4);
        assert(coprime210(41));
        assert forall|m: int| s < m < s + 4 implies !coprime210(m) by {
            let j = m - s;
            lemma_add_mod210(s, j);
            lemma_coprime_mod210(m);
            if j == 1 {
                assert(m % 210 == 38);
                assert(!coprime210(38));
            } else if j == 2 {
                assert(m % 210 == 39);
                assert(!coprime210(39));
            } else if j == 3 {
                assert(m % 210 == 40);
                assert(!coprime210(40));
            }
            assert(!coprime210(m % 210));
        }
    } else if i == 8 {
        lemma_add_mod210(s, 2);
        assert((s + 2) % 210 == 43);
        lemma_coprime_mod210(s + 2);
        assert(coprime210(43));
        assert forall|m: int| s < m < s + 2 implies !coprime210(m) by {
            let j = m - s;
            lemma_add_mod210(s, j);
            lemma_coprime_mod210(m);
            if j == 1 {
                assert(m % 210 == 42);
                assert(!coprime210(42));
            }
            assert(!coprime210(m % 210));
        }
    } else if i == 9 {
        lemma_add_mod210(s, 4);
        assert((s + 4) % 210 == 47);
        lemma_coprime_mod210(s + 4);
        assert(coprime210(47));
        assert forall|m: int| s < m < s + 4 implies !coprime210(m) by {
            let j = m - s;
            lemma_add_mod210(s, j);
            lemma_coprime_mod210(m);
            if j == 1 {
                assert(m % 210 == 44);
                assert(!coprime210(44));
            } else if j == 2 {
                assert(m % 210 == 45);
                assert(!coprime210(45));
            } else if j == 3 {
                assert(m % 210 == 46);
                assert(!coprime210(46));
            }
            assert(!coprime210(m % 210));
        }
    } else if i == 10 {
        lemma_add_mod210(s, 6);
        assert((s + 6) % 210 == 53);
        lemma_coprime_mod210(s + 6);
        assert(coprime210(53));
        assert forall|m: int| s < m < s + 6 implies !coprime210(m) by {
            let j = m - s;
            lemma_add_mod210(s, j);
            lemma_coprime_mod210(m);
            if j == 1 {
                assert(m % 210 == 48);
                assert(!coprime210(48));
            } else if j == 2 {
                assert(m % 210 == 49);
                assert(!coprime210(49));
            } else if j == 3 {
                assert(m % 210 == 50);
                assert(!coprime210(50));
            } else if j == 4 {
                assert(m % 210 == 51);
                assert(!coprime210(51));
            } else if j == 5 {
                assert(m % 210 == 52);
                assert(!coprime210(52));
            }
            assert(!coprime210(m % 210));
        }
    } else if i == 11 {
        lemma_add_mod210(s, 6);
        assert((s + 6) % 210 == 59);
        lemma_coprime_mod210(s + 6);
        assert(coprime210(59));
        assert forall|m: int| s < m < s + 6 implies !coprime210(m) by {
            let j = m - s;
            lemma_add_mod210(s, j);
            lemma_coprime_mod210(m);
            if j == 1 {
                assert(m % 210 == 54);
                assert(!coprime210(54));
            } else if j == 2 {
                assert(m % 210 == 55);
                assert(!coprime210(55));
            } else if j == 3 {
                assert(m % 210 == 56);
                assert(!coprime210(56));
            } else if j == 4 {
                assert(m % 210 == 57);
                assert(!coprime210(57));
            } else if j == 5 {
                assert(m % 210 == 58);
                assert(!coprime210(58));
            }
            assert(!coprime210(m % 210));
        }
    } else if i == 12 {
        lemma_add_mod210(s, 2);
        assert((s + 2) % 210 == 61);
        lemma_coprime_mod210(s + 2);
        assert(coprime210(61));
        assert forall|m: int| s < m < s + 2 implies !coprime210(m) by {
            let j = m - s;
            lemma_add_mod210(s, j);
            lemma_coprime_mod210(m);
            if j == 1 {
                assert(m % 210 == 60);
                assert(!coprime210(60));
            }
            assert(!coprime210(m % 210));
        }
    } else if i == 13 {
        lemma_add_mod210(s, 6);
        assert((s + 6) % 210 == 67);
        lemma_coprime_mod210(s + 6);
        assert(coprime210(67));
        assert forall|m: int| s < m < s + 6 implies !coprime210(m) by {
            let j = m - s;
            lemma_add_mod210(s, j);
            lemma_coprime_mod210(m);
            if j == 1 {
                assert(m % 210 == 62);
                assert(!coprime210(62));
            } else if j == 2 {
                assert(m % 210 == 63);
                assert(!coprime210(63));
            } else if j == 3 {
                assert(m % 210 == 64);
                assert(!coprime210(64));
            } else if j == 4 {
                assert(m % 210 == 65);
                assert(!coprime210(65));
            } else if j == 5 {
                assert(m % 210 == 66);
                assert(!coprime210(66));
            }
            assert(!coprime210(m % 210));
        }
    } else if i == 14 {
        lemma_add_mod210(s, 4);
        assert((s + 4) % 210 == 71);
        lemma_coprime_mod210(s + 4);
        assert(coprime210(71));
        assert forall|m: int| s < m < s + 4 implies !coprime210(m) by {
            let j = m - s;
            lemma_add_mod210(s, j);
            lemma_coprime_mod210(m);
            if j == 1 {
                assert(m % 210 == 68);
                assert(!coprime210(68));
            } else if j == 2 {
                assert(m % 210 == 69);
                assert(!coprime210(69));
            } else if j == 3 {
                assert(m % 210 == 70);
                assert(!coprime210(70));
            }
            assert(!coprime210(m % 210));
        }
    } else if i == 15 {
        lemma_add_mod210(s, 2);
        assert((s + 2) % 210 == 73);
        lemma_coprime_mod210(s + 2);
        assert(coprime210(73));
        assert forall|m: int| s < m < s + 2 implies !coprime210(m) by {
            let j = m - s;
            lemma_add_mod210(s, j);
            lemma_coprime_mod210(m);
            if j == 1 {
                assert(m % 210 == 72);
                assert(!coprime210(72));
            }
            assert(!coprime210(m % 210));
        }
    } else if i == 16 {
        lemma_add_mod210(s, 6);
        assert((s + 6) % 210 == 79);
        lemma_coprime_mod210(s + 6);
        assert(coprime210(79));
        assert forall|m: int| s < m < s + 6 implies !coprime210(m) by {
            let j = m - s;
            lemma_add_mod210(s, j);
            lemma_coprime_mod210(m);
            if j == 1 {
                assert(m % 210 == 74);
                assert(!coprime210(74));
            } else if j == 2 {
                assert(m % 210 == 75);
                assert(!coprime210(75));
            } else if j == 3 {
                assert(m % 210 == 76);
                assert(!coprime210(76));
            } else if j == 4 {
                assert(m % 210 == 77);
                assert(!coprime210(77));
            } else if j == 5 {
                assert(m % 210 == 78);
                assert(!coprime210(78));
            }
            assert(!coprime210(m % 210));
        }
    } else if i == 17 {
        lemma_add_mod210(s, 4);
        assert((s + 4) % 210 == 83);
        lemma_coprime_mod210(s + 4);
        assert(coprime210(83));
        assert forall|m: int| s < m < s + 4 implies !coprime210(m) by {
            let j = m - s;
            lemma_add_mod210(s, j);
            lemma_coprime_mod210(m);
            if j == 1 {
                assert(m % 210 == 80);
                assert(!coprime210(80));
            } else if j == 2 {
                assert(m % 210 == 81);
                assert(!coprime210(81));
            } else if j == 3 {
                assert(m % 210 == 82);
                assert(!coprime210(82));
            }
            assert(!coprime210(m % 210));
        }
    } else if i == 18 {
        lemma_add_mod210(s, 6);
        assert((s + 6) % 210 == 89);
        lemma_coprime_mod210(s + 6);
        assert(coprime210(89));
        assert forall|m: int| s < m < s + 6 implies !coprime210(m) by {
            let j = m - s;
            lemma_add_mod210(s, j);
            lemma_coprime_mod210(m);
            if j == 1 {
                assert(m % 210 == 84);
                assert(!coprime210(84));
            } else if j == 2 {
                assert(m % 210 == 85);
                assert(!coprime210(85));
            } else if j == 3 {
                assert(m % 210 == 86);
                assert(!coprime210(86));
            } else if j == 4 {
                assert(m % 210 == 87);
                assert(!coprime210(87));
            } else if j == 5 {
                assert(m % 210 == 88);
                assert(!coprime210(88));
            }
            assert(!coprime210(m % 210));
        }
    } else if i == 19 {
        lemma_add_mod210(s, 8);
        assert((s + 8) % 210 == 97);
        lemma_coprime_mod210(s + 8);
        assert(coprime210(97));
        assert forall|m: int| s < m < s + 8 implies !coprime210(m) by {
            let j = m - s;
            lemma_add_mod210(s, j);
            lemma_coprime_mod210(m);
            if j == 1 {
                assert(m % 210 == 90);
                assert(!coprime210(90));
            } else if j == 2 {
                assert(m % 210 == 91);
                assert(!coprime210(91));
            } else if j == 3 {
                assert(m % 210 == 92);
                assert(!coprime210(92));
            } else if j == 4 {
                assert(m % 210 == 93);
                assert(!coprime210(93));
            } else if j == 5 {
                assert(m % 210 == 94);
                assert(!coprime210(94));
            } else if j == 6 {
                assert(m % 210 == 95);
                assert(!coprime210(95));
            } else if j == 7 {
                assert(m % 210 == 96);
                assert(!coprime210(96));
            }
            assert(!coprime210(m % 210));
        }
    } else if i == 20 {
        lemma_add_mod210(s, 4);
        assert((s + 4) % 210 == 101);
        lemma_coprime_mod210(s + 4);
        assert(coprime210(101));
        assert forall|m: int| s < m < s + 4 implies !coprime210(m) by {
            let j = m - s;
            lemma_add_mod210(s, j);
            lemma_coprime_mod210(m);
            if j == 1 {
                assert(m % 210 == 98);
                assert(!coprime210(98));
            } else if j == 2 {
                assert(m % 210 == 99);
                assert(!coprime210(99));
            } else if j == 3 {
                assert(m % 210 == 100);
                assert(!coprime210(100));
            }
            assert(!coprime210(m % 210));
        }
    } else if i == 21 {
        lemma_add_mod210(s, 2);
        assert((s + 2) % 210 == 103);
        lemma_coprime_mod210(s + 2);
        assert(coprime210(103));
        assert forall|m: int| s < m < s + 2 implies !coprime210(m) by {
            let j = m - s;
            lemma_add_mod210(s, j);
            lemma_coprime_mod210(m);
            if j == 1 {
                assert(m % 210 == 102);
                assert(!coprime210(102));
            }
            assert(!coprime210(m % 210));
        }
    } else if i == 22 {
        lemma_add_mod210(s, 4);
        assert((s + 4) % 210 == 107);
        lemma_coprime_mod210(s + 4);
        assert(coprime210(107));
        assert forall|m: int| s < m < s + 4 implies !coprime210(m) by {
            let j = m - s;
            lemma_add_mod210(s, j);
            lemma_coprime_mod210(m);
            if j == 1 {
                assert(m % 210 == 104);
                assert(!coprime210(104));
            } else if j == 2 {
                assert(m % 210 == 105);
                assert(!coprime210(105));
            } else if j == 3 {
                assert(m % 210 == 106);
                assert(!coprime210(106));
            }
            assert(!coprime210(m % 210));
        }
    } else if i == 23 {
        lemma_add_mod210(s, 2);
        assert((s + 2) % 210 == 109);
        lemma_coprime_mod210(s + 2);
        assert(coprime210(109));
        assert forall|m: int| s < m < s + 2 implies !coprime210(m) by {
            let j = m - s;
            lemma_add_mod210(s, j);
            lemma_coprime_mod210(m);
            if j == 1 {
                assert(m % 210 == 108);
                assert(!coprime210(108));
            }
            assert(!coprime210(m % 210));
        }
    } else if i == 24 {
        lemma_add_mod210(s, 4);
        assert((s + 4) % 210 == 113);
        lemma_coprime_mod210(s + 4);
        assert(coprime210(113));
        assert forall|m: int| s < m < s + 4 implies !coprime210(m) by {
            let j = m - s;
            lemma_add_mod210(s, j);
            lemma_coprime_mod210(m);
            if j == 1 {
                assert(m % 210 == 110);
                assert(!coprime210(110));
            } else if j == 2 {
                assert(m % 210 == 111);
                assert(!coprime210(111));
            } else if j == 3 {
                assert(m % 210 == 112);
                assert(!coprime210(112));
            }
            assert(!coprime210(m % 210));
        }
    } else if i == 25 {
        lemma_add_mod210(s, 8);
        assert((s + 8) % 210 == 121);
        lemma_coprime_mod210(s + 8);
        assert(coprime210(121));
        assert forall|m: int| s < m < s + 8 implies !coprime210(m) by {
            let j = m - s;
            lemma_add_mod210(s, j);
            lemma_coprime_mod210(m);
            if j == 1 {
                assert(m % 210 == 114);
                assert(!coprime210(114));
            } else if j == 2 {
                assert(m % 210 == 115);
                assert(!coprime210(115));
            } else if j == 3 {
                assert(m % 210 == 116);
                assert(!coprime210(116));
            } else if j == 4 {
                assert(m % 210 == 117);
                assert(!coprime210(117));
            } else if j == 5 {
                assert(m % 210 == 118);
                assert(!coprime210(118));
            } else if j == 6 {
                assert(m % 210 == 119);
                assert(!coprime210(119));
            } else if j == 7 {
                assert(m % 210 == 120);
                assert(!coprime210(120));
            }
            assert(!coprime210(m % 210));
        }
    } else if i == 26 {
        lemma_add_mod210(s, 6);
        assert((s + 6) % 210 == 127);
        lemma_coprime_mod210(s + 6);
        assert(coprime210(127));
        assert forall|m: int| s < m < s + 6 implies !coprime210(m) by {
            let j = m - s;
            lemma_add_mod210(s, j);
            lemma_coprime_mod210(m);
            if j == 1 {
                assert(m % 210 == 122);
                assert(!coprime210(122));
            } else if j == 2 {
                assert(m % 210 == 123);
                assert(!coprime210(123));
            } else if j == 3 {
                assert(m % 210 == 124);
                assert(!coprime210(124));
            } else if j == 4 {
                assert(m % 210 == 125);
                assert(!coprime210(125));
            } else if j == 5 {
                assert(m % 210 == 126);
                assert(!coprime210(126));
            }
            assert(!coprime210(m % 210));
        }
    } else if i == 27 {
        lemma_add_mod210(s, 4);
        assert((s + 4) % 210 == 131);
        lemma_coprime_mod210(s + 4);
        assert(coprime210(131));
        assert forall|m: int| s < m < s + 4 implies !coprime210(m) by {
            let j = m - s;
            lemma_add_mod210(s, j);
            lemma_coprime_mod210(m);
            if j == 1 {
                assert(m % 210 == 128);
                assert(!coprime210(128));
            } else if j == 2 {
                assert(m % 210 == 129);
                assert(!coprime210(129));
            } else if j == 3 {
                assert(m % 210 == 130);
                assert(!coprime210(130));
            }
            assert(!coprime210(m % 210));
        }
    } else if i == 28 {
        lemma_add_mod210(s, 6);
        assert((s + 6) % 210 == 137);
        lemma_coprime_mod210(s + 6);
        assert(coprime210(137));
        assert forall|m: int| s < m < s + 6 implies !coprime210(m) by {
            let j = m - s;
            lemma_add_mod210(s, j);
            lemma_coprime_mod210(m);
            if j == 1 {
                assert(m % 210 == 132);
                assert(!coprime210(132));
            } else if j == 2 {
                assert(m % 210 == 133);
                assert(!coprime210(133));
            } else if j == 3 {
                assert(m % 210 == 134);
                assert(!coprime210(134));
            } else if j == 4 {
                assert(m % 210 == 135);
                assert(!coprime210(135));
            } else if j == 5 {
                assert(m % 210 == 136);
                assert(!coprime210(136));
            }
            assert(!coprime210(m % 210));
        }
    } else if i == 29 {
        lemma_add_mod210(s, 2);
        assert((s + 2) % 210 == 139);
        lemma_coprime_mod210(s + 2);
        assert(coprime210(139));
        assert forall|m: int| s < m < s + 2 implies !coprime210(m) by {
            let j = m - s;
            lemma_add_mod210(s, j);
            lemma_coprime_mod210(m);
            if j == 1 {
                assert(m % 210 == 138);
                assert(!coprime210(138));
            }
            assert(!coprime210(m % 210));
        }
    } else if i == 30 {
        lemma_add_mod210(s, 4);
        assert((s + 4) % 210 == 143);
        lemma_coprime_mod210(s + 4);
        assert(coprime210(143));
        assert forall|m: int| s < m < s + 4 implies !coprime210(m) by {
            let j = m - s;
            lemma_add_mod210(s, j);
            lemma_coprime_mod210(m);
            if j == 1 {
                assert(m % 210 == 140);
                assert(!coprime210(140));
            } else if j == 2 {
                assert(m % 210 == 141);
                assert(!coprime210(141));
            } else if j == 3 {
                assert(m % 210 == 142);
                assert(!coprime210(142));
            }
            assert(!coprime210(m % 210));
        }
    } else if i == 31 {
        lemma_add_mod210(s, 6);
        assert((s + 6) % 210 == 149);
        lemma_coprime_mod210(s + 6);
        assert(coprime210(149));
        assert forall|m: int| s < m < s + 6 implies !coprime210(m) by {
            let j = m - s;
            lemma_add_mod210(s, j);
            lemma_coprime_mod210(m);
            if j == 1 {
                assert(m % 210 == 144);
                assert(!coprime210(144));
            } else if j == 2 {
                assert(m % 210 == 145);
                assert(!coprime210(145));
            } else if j == 3 {
                assert(m % 210 == 146);
                assert(!coprime210(146));
            } else if j == 4 {
                assert(m % 210 == 147);
                assert(!coprime210(147));
            } else if j == 5 {
                assert(m % 210 == 148);
                assert(!coprime210(148));
            }
            assert(!coprime210(m % 210));
        }
    } else if i == 32 {
        lemma_add_mod210(s, 2);
        assert((s + 2) % 210 == 151);
        lemma_coprime_mod210(s + 2);
        assert(coprime210(151));
        assert forall|m: int| s < m < s + 2 implies !coprime210(m) by {
            let j = m - s;
            lemma_add_mod210(s, j);
            lemma_coprime_mod210(m);
            if j == 1 {
                assert(m % 210 == 150);
                assert(!coprime210(150));
            }
            assert(!coprime210(m % 210));
        }
    } else if i == 33 {
        lemma_add_mod210(s, 6);
        assert((s + 6) % 210 == 157);
        lemma_coprime_mod210(s + 6);
        assert(coprime210(157));
        assert forall|m: int| s < m < s + 6 implies !coprime210(m) by {
            let j = m - s;
            lemma_add_mod210(s, j);
            lemma_coprime_mod210(m);
            if j == 1 {
                assert(m % 210 == 152);
                assert(!coprime210(152));
            } else if j == 2 {
                assert(m % 210 == 153);
                assert(!coprime210(153));
            } else if j == 3 {
                assert(m % 210 == 154);
                assert(!coprime210(154));
            } else if j == 4 {
                assert(m % 210 == 155);
                assert(!coprime210(155));
            } else if j == 5 {
                assert(m % 210 == 156);
                assert(!coprime210(156));
            }
            assert(!coprime210(m % 210));
        }
    } else if i == 34 {
        lemma_add_mod210(s, 6);
        assert((s + 6) % 210 == 163);
        lemma_coprime_mod210(s + 6);
        assert(coprime210(163));
        assert forall|m: int| s < m < s + 6 implies !coprime210(m) by {
            let j = m - s;
            lemma_add_mod210(s, j);
            lemma_coprime_mod210(m);
            if j == 1 {
                assert(m % 210 == 158);
                assert(!coprime210(158));
            } else if j == 2 {
                assert(m % 210 == 159);
                assert(!coprime210(159));
            } else if j == 3 {
                assert(m % 210 == 160);
                assert(!coprime210(160));
            } else if j == 4 {
                assert(m % 210 == 161);
                assert(!coprime210(161));
            } else if j == 5 {
                assert(m % 210 == 162);
                assert(!coprime210(162));
            }
            assert(!coprime210(m % 210));
        }
    } else if i == 35 {
        lemma_add_mod210(s, 4);
        assert((s + 4) % 210 == 167);
        lemma_coprime_mod210(s + 4);
        assert(coprime210(167));
        assert forall|m: int| s < m < s + 4 implies !coprime210(m) by {
            let j = m - s;
            lemma_add_mod210(s, j);
            lemma_coprime_mod210(m);
            if j == 1 {
                assert(m % 210 == 164);
                assert(!coprime210(164));
            } else if j == 2 {
                assert(m % 210 == 165);
                assert(!coprime210(165));
            } else if j == 3 {
                assert(m % 210 == 166);
                assert(!coprime210(166));
            }
            assert(!coprime210(m % 210));
        }
    } else if i == 36 {
        lemma_add_mod210(s, 2);
        assert((s + 2) % 210 == 169);
        lemma_coprime_mod210(s + 2);
        assert(coprime210(169));
        assert forall|m: int| s < m < s + 2 implies !coprime210(m) by {
            let j = m - s;
            lemma_add_mod210(s, j);
            lemma_coprime_mod210(m);
            if j == 1 {
                assert(m % 210 == 168);
                assert(!coprime210(168));
            }
            assert(!coprime210(m % 210));
        }
    } else if i == 37 {
        lemma_add_mod210(s, 4);
        assert((s + 4) % 210 == 173);
        lemma_coprime_mod210(s + 4);
        assert(coprime210(173));
        assert forall|m: int| s < m < s + 4 implies !coprime210(m) by {
            let j = m - s;
            lemma_add_mod210(s, j);
            lemma_coprime_mod210(m);
            if j == 1 {
                assert(m % 210 == 170);
                assert(!coprime210(170));
            } else if j == 2 {
                assert(m % 210 == 171);
                assert(!coprime210(171));
            } else if j == 3 {
                assert(m % 210 == 172);
                assert(!coprime210(172));
            }
            assert(!coprime210(m % 210));
        }
    } else if i == 38 {
        lemma_add_mod210(s, 6);
        assert((s + 6) % 210 == 179);
        lemma_coprime_mod210(s + 6);
        assert(coprime210(179));
        assert forall|m: int| s < m < s + 6 implies !coprime210(m) by {
            let j = m - s;
            lemma_add_mod210(s, j);
            lemma_coprime_mod210(m);
            if j == 1 {
                assert(m % 210 == 174);
                assert(!coprime210(174));
            } else if j == 2 {
                assert(m % 210 == 175);
                assert(!coprime210(175));
            } else if j == 3 {
                assert(m % 210 == 176);
                assert(!coprime210(176));
            } else if j == 4 {
                assert(m % 210 == 177);
                assert(!coprime210(177));
            } else if j == 5 {
                assert(m % 210 == 178);
                assert(!coprime210(178));
            }
            assert(!coprime210(m % 210));
        }
    } else if i == 39 {
        lemma_add_mod210(s, 2);
        assert((s + 2) % 210 == 181);
        lemma_coprime_mod210(s + 2);
        assert(coprime210(181));
        assert forall|m: int| s < m < s + 2 implies !coprime210(m) by {
            let j = m - s;
            lemma_add_mod210(s, j);
            lemma_coprime_mod210(m);
            if j == 1 {
                assert(m % 210 == 180);
                assert(!coprime210(180));
            }
            assert(!coprime210(m % 210));
        }
    } else if i == 40 {
        lemma_add_mod210(s, 6);
        assert((s + 6) % 210 == 187);
        lemma_coprime_mod210(s + 6);
        assert(coprime210(187));
        assert forall|m: int| s < m < s + 6 implies !coprime210(m) by {
            let j = m - s;
            lemma_add_mod210(s, j);
            lemma_coprime_mod210(m);
            if j == 1 {
                assert(m % 210 == 182);
                assert(!coprime210(182));
            } else if j == 2 {
                assert(m % 210 == 183);
                assert(!coprime210(183));
            } else if j == 3 {
                assert(m % 210 == 184);
                assert(!coprime210(184));
            } else if j == 4 {
                assert(m % 210 == 185);
                assert(!coprime210(185));
            } else if j == 5 {
                assert(m % 210 == 186);
                assert(!coprime210(186));
            }
            assert(!coprime210(m % 210));
        }
    } else if i == 41 {
        lemma_add_mod210(s, 4);
        assert((s + 4) % 210 == 191);
        lemma_coprime_mod210(s + 4);
        assert(coprime210(191));
        assert forall|m: int| s < m < s + 4 implies !coprime210(m) by {
            let j = m - s;
            lemma_add_mod210(s, j);
            lemma_coprime_mod210(m);
            if j == 1 {
                assert(m % 210 == 188);
                assert(!coprime210(188));
            } else if j == 2 {
                assert(m % 210 == 189);
                assert(!coprime210(189));
            } else if j == 3 {
                assert(m % 210 == 190);
                assert(!coprime210(190));
            }
            assert(!coprime210(m % 210));
        }
    } else if i == 42 {
        lemma_add_mod210(s, 2);
        assert((s + 2) % 210 == 193);
        lemma_coprime_mod210(s + 2);
        assert(coprime210(193));
        assert forall|m: int| s < m < s + 2 implies !coprime210(m) by {
            let j = m - s;
            lemma_add_mod210(s, j);
            lemma_coprime_mod210(m);
            if j == 1 {
                assert(m % 210 == 192);
                assert(!coprime210(192));
            }
            assert(!coprime210(m % 210));
        }
    } else if i == 43 {
        lemma_add_mod210(s, 4);
        assert((s + 4) % 210 == 197);
        lemma_coprime_mod210(s + 4);
        assert(coprime210(197));
        assert forall|m: int| s < m < s + 4 implies !coprime210(m) by {
            let j = m - s;
            lemma_add_mod210(s, j);
            lemma_coprime_mod210(m);
            if j == 1 {
                assert(m % 210 == 194);
                assert(!coprime210(194));
            } else if j == 2 {
                assert(m % 210 == 195);
                assert(!coprime210(195));
            } else if j == 3 {
                assert(m % 210 == 196);
                assert(!coprime210(196));
            }
            assert(!coprime210(m % 210));
        }
    } else if i == 44 {
        lemma_add_mod210(s, 2);
        assert((s + 2) % 210 == 199);
        lemma_coprime_mod210(s + 2);
        assert(coprime210(199));
        assert forall|m: int| s < m < s + 2 implies !coprime210(m) by {
            let j = m - s;
            lemma_add_mod210(s, j);
            lemma_coprime_mod210(m);
            if j == 1 {
                assert(m % 210 == 198);
                assert(!coprime210(198));
            }
            assert(!coprime210(m % 210));
        }
    } else if i == 45 {
        lemma_add_mod210(s, 10);
        assert((s + 10) % 210 == 209);
        lemma_coprime_mod210(s + 10);
        assert(coprime210(209));
        assert forall|m: int| s < m < s + 10 implies !coprime210(m) by {
            let j = m - s;
            lemma_add_mod210(s, j);
            lemma_coprime_mod210(m);
            if j == 1 {
                assert(m % 210 == 200);
                assert(!coprime210(200));
            } else if j == 2 {
                assert(m % 210 == 201);
                assert(!coprime210(201));
            } else if j == 3 {
                assert(m % 210 == 202);
                assert(!coprime210(202));
            } else if j == 4 {
                assert(m % 210 == 203);
                assert(!coprime210(203));
            } else if j == 5 {
                assert(m % 210 == 204);
                assert(!coprime210(204));
            } else if j == 6 {
                assert(m % 210 == 205);
                assert(!coprime210(205));
            } else if j == 7 {
                assert(m % 210 == 206);
                assert(!coprime210(206));
            } else if j == 8 {
                assert(m % 210 == 207);
                assert(!coprime210(207));
            } else if j == 9 {
                assert(m % 210 == 208);
                assert(!coprime210(208));
            }
            assert(!coprime210(m % 210));
        }
    } else if i == 46 {
        lemma_add_mod210(s, 2);
        assert((s + 2) % 210 == 1);
        lemma_coprime_mod210(s + 2);
        assert(coprime210(1));
        assert forall|m: int| s < m < s + 2 implies !coprime210(m) by {
            let j = m - s;
            lemma_add_mod210(s, j);
            lemma_coprime_mod210(m);
            if j == 1 {
                assert(m % 210 == 0);
                assert(!coprime210(0));
            }
            assert(!coprime210(m % 210));
        }
    } else if i == 47 {
        lemma_add_mod210(s, 10);
        assert((s + 10) % 210 == 11);
        lemma_coprime_mod210(s + 10);
        assert(coprime210(11));
        assert forall|m: int| s < m < s + 10 implies !coprime210(m) by {
            let j = m - s;
            lemma_add_mod210(s, j);
            lemma_coprime_mod210(m);
            if j == 1 {
                assert(m % 210 == 2);
                assert(!coprime210(2));
            } else if j == 2 {
                assert(m % 210 == 3);
                assert(!coprime210(3));
            } else if j == 3 {
                assert(m % 210 == 4);
                assert(!coprime210(4));
            } else if j == 4 {
                assert(m % 210 == 5);
                assert(!coprime210(5));
            } else if j == 5 {
                assert(m % 210 == 6);
                assert(!coprime210(6));
            } else if j == 6 {
                assert(m % 210 == 7);
                assert(!coprime210(7));
            } else if j == 7 {
                assert(m % 210 == 8);
                assert(!coprime210(8));
            } else if j == 8 {
                assert(m % 210 == 9);
                assert(!coprime210(9));
            } else if j == 9 {
                assert(m % 210 == 10);
                assert(!coprime210(10));
            }
            assert(!coprime210(m % 210));
        }
    } else {
        assert(false);
    }
}


/// The cursor `k` steps past `i`, for `k` at most one full turn.
pub open spec fn idx_add(i: int, k: int) -> int {
    if i + k < 48 {
        i + k
    } else {
        i + k - 48
    }
}

/// Cursor and value after `k` further steps of the wheel.
pub open spec fn wheel_iter(i: int, s: int, k: nat) -> (int, int)
    decreases k,
{
    if k == 0 {
        (i, s)
    } else {
        let prev = wheel_iter(i, s, (k - 1) as nat);
        (next_idx(prev.0), prev.1 + wheel_inc(prev.0))
    }
}

/// The increments accumulated over `k` steps starting at cursor `i`.
pub open spec fn cycle_sum_from(i: int, k: nat) -> int
    decreases k,
{
    if k == 0 {
        0
    } else {
        wheel_inc(i) + cycle_sum_from(next_idx(i), (k - 1) as nat)
    }
}

/// Iterating the wheel accumulates exactly the cyclic increment sum,
/// and the cursor moves `k` positions around the cycle.
proof fn lemma_iter_shape(i: int, s: int, k: nat)
    requires
        0 <= i < 48,
        k <= 48,
    ensures
        wheel_iter(i, s, k).1 == s + cycle_sum_from(i, k),
        wheel_iter(i, s, k).0 == idx_add(i, k as int),
    decreases k,
{
    if k > 0 {
        lemma_iter_shape(i, s, (k - 1) as nat);
        lemma_sum_snoc(i, k);
    }
}

/// Peeling the last step off the cyclic sum.
proof fn lemma_sum_snoc(i: int, k: nat)
    requires
        0 <= i < 48,
        1 <= k <= 48,
    ensures
        cycle_sum_from(i, k) == cycle_sum_from(i, (k - 1) as nat) + wheel_inc(
            idx_add(i, k as int - 1),
        ),
    decreases k,
{
    if k == 1 {
        assert(cycle_sum_from(next_idx(i), 0) == 0);
    } else {
        lemma_sum_snoc(next_idx(i), (k - 1) as nat);
    }
}

/// The full-turn sum does not depend on where the turn starts.
proof fn lemma_sum_rotation(i: int)
    requires
        0 <= i < 48,
    ensures
        cycle_sum_from(i, 48) == cycle_sum_from(0, 48),
    decreases i,
{
    if i > 0 {
        lemma_sum_rotation(i - 1);
        lemma_sum_snoc(i, 48);
        assert(cycle_sum_from(i - 1, 48) == wheel_inc(i - 1) + cycle_sum_from(i, 47));
        assert(idx_add(i, 47) == i - 1);
    }
}

/// One full turn of 48 increments sums to 210.
#[verifier::rlimit(60)]
proof fn lemma_full_turn_total()
    ensures
        cycle_sum_from(0, 48) == 210,
{
    reveal_with_fuel(cycle_sum_from, 49);
    assert(cycle_sum_from(0, 48) == 210);
}

/// One full turn of the wheel -- 48 steps from any cursor position --
/// advances the value by exactly 210 = 2 * 3 * 5 * 7 and returns the
/// cursor to where it started.  Since each step's contract already
/// says that nothing coprime to 210 is skipped and every value landed
/// on is coprime to 210, a full turn visits exactly the 48 integers
/// coprime to 210 in that span, each once.
pub proof fn lemma_wheel_cycle(i: int, s: int)
    requires
        0 <= i < 48,
    ensures
        wheel_iter(i, s, 48).1 == s + 210,
        wheel_iter(i, s, 48).0 == i,
{
    lemma_iter_shape(i, s, 48);
    lemma_sum_rotation(i);
    lemma_full_turn_total();
}

/// Produces candidate integers by cyclic increments: starting from 1,
/// it emits 11, 13, 17, ... -- every integer coprime to 210, in order.
pub struct Wheel {
    pub index: usize,
    pub state: u64,
}

impl Wheel {
    /// The wheel's internal consistency: the cursor is in range and the
    /// value's residue modulo 210 matches the cursor position.
    pub open spec fn wf(self) -> bool {
        &&& self.index < 48
        &&& 1 <= self.state
        &&& self.state % 210 == wheel_res(next_idx(self.index as int))
    }

    /// A fresh wheel, poised so that its first output is 11.
    pub fn new() -> (w: Wheel)
        ensures
            w.wf(),
            w.state == 1,
    {
        Wheel { index: 47, state: 1 }
    }

    /// Advances to -- and returns -- the next integer coprime to 210:
    /// nothing coprime to 210 lies strictly between the old and the new
    /// value, and nothing is ever visited twice.
    pub fn next(&mut self) -> (n: u64)
        requires
            old(self).wf(),
            old(self).state <= u64::MAX - 10,
        ensures
            final(self).wf(),
            n == final(self).state,
            final(self).index as int == next_idx(old(self).index as int),
            final(self).state == old(self).state + wheel_inc(old(self).index as int),
            old(self).state < n <= old(self).state + 10,
            coprime210(n as int),
            forall|m: int| old(self).state < m < n ==> !coprime210(m),
    {
        proof {
            lemma_wheel_advance(self.index as int, self.state as int);
        }
        let inc = wheel_inc_at(self.index);
        self.state = self.state + inc;
        if self.index == 47 {
            self.index = 0;
        } else {
            self.index = self.index + 1;
        }
        self.state
    }
}

} // verus!
