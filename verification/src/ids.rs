//! Commit identifiers: every commit is named by a fixed-width
//! hexadecimal rendering of its position in the log — a deliberate
//! departure from content-hash naming, since a digest cannot be
//! computed and reasoned about here, while a position is. What callers
//! rely on is kept: identifiers are unique, stable, and resolvable by
//! prefix, and the fixed width guarantees that no full identifier is a
//! proper prefix of another, so resolving a full identifier is
//! unambiguous.

use vstd::prelude::*;
use crate::text::is_prefix_of;

verus! {

/// The width, in hexadecimal digits, of every commit identifier.
pub open spec fn id_width() -> nat {
    16
}

/// The hexadecimal digit character for a value below sixteen.
pub open spec fn hex_char_of(d: int) -> char {
    if d == 0 {
        '0'
    } else if d == 1 {
        '1'
    } else if d == 2 {
        '2'
    } else if d == 3 {
        '3'
    } else if d == 4 {
        '4'
    } else if d == 5 {
        '5'
    } else if d == 6 {
        '6'
    } else if d == 7 {
        '7'
    } else if d == 8 {
        '8'
    } else if d == 9 {
        '9'
    } else if d == 10 {
        'a'
    } else if d == 11 {
        'b'
    } else if d == 12 {
        'c'
    } else if d == 13 {
        'd'
    } else if d == 14 {
        'e'
    } else {
        'f'
    }
}

/// `n` written as `width` hexadecimal digits, most significant first.
pub open spec fn hex_seq(n: nat, width: nat) -> Seq<char>
    decreases width,
{
    if width == 0 {
        Seq::empty()
    } else {
        hex_seq(n / 16, (width - 1) as nat).push(hex_char_of((n % 16) as int))
    }
}

/// The identifier of the commit at log position `n`.
pub open spec fn commit_id_of(n: nat) -> Seq<char> {
    hex_seq(n, id_width())
}

pub open spec fn pow16(w: nat) -> nat
    decreases w,
{
    if w == 0 {
        1
    } else {
        16 * pow16((w - 1) as nat)
    }
}

pub proof fn lemma_hex_seq_len(n: nat, w: nat)
    ensures
        hex_seq(n, w).len() == w,
    decreases w,
{
    if w > 0 {
        lemma_hex_seq_len(n / 16, (w - 1) as nat);
    }
}

proof fn lemma_hex_char_injective(x: int, y: int)
    requires
        0 <= x < 16,
        0 <= y < 16,
        hex_char_of(x) == hex_char_of(y),
    ensures
        x == y,
{
}

pub proof fn lemma_hex_seq_injective(a: nat, b: nat, w: nat)
    requires
        a < pow16(w),
        b < pow16(w),
        hex_seq(a, w) == hex_seq(b, w),
    ensures
        a == b,
    decreases w,
{
    if w == 0 {
        assert(pow16(0) == 1);
    } else {
        lemma_hex_seq_len(a / 16, (w - 1) as nat);
        lemma_hex_seq_len(b / 16, (w - 1) as nat);
        let ta = hex_seq(a / 16, (w - 1) as nat);
        let tb = hex_seq(b / 16, (w - 1) as nat);
        assert(hex_seq(a, w)[w - 1] == hex_char_of((a % 16) as int));
        assert(hex_seq(b, w)[w - 1] == hex_char_of((b % 16) as int));
        lemma_hex_char_injective((a % 16) as int, (b % 16) as int);
        assert(ta =~= tb) by {
            assert(forall|i: int|
                0 <= i < w - 1 ==> ta[i] == hex_seq(a, w)[i] && tb[i] == hex_seq(b, w)[i]);
        }
        assert(a / 16 < pow16((w - 1) as nat)) by (nonlinear_arith)
            requires
                a < pow16(w),
                pow16(w) == 16 * pow16((w - 1) as nat),
        ;
        assert(b / 16 < pow16((w - 1) as nat)) by (nonlinear_arith)
            requires
                b < pow16(w),
                pow16(w) == 16 * pow16((w - 1) as nat),
        ;
        lemma_hex_seq_injective(a / 16, b / 16, (w - 1) as nat);
        assert(a == 16 * (a / 16) + a % 16);
        assert(b == 16 * (b / 16) + b % 16);
    }
}

/// The identifier width covers every position below two to the 64th.
pub proof fn lemma_pow16_width()
    ensures
        pow16(id_width()) == 0x10000000000000000,
{
    assert(pow16(0) == 1);
    assert(pow16(1) == 16);
    assert(pow16(2) == 256);
    assert(pow16(3) == 4096);
    assert(pow16(4) == 65536);
    assert(pow16(5) == 1048576);
    assert(pow16(6) == 16777216);
    assert(pow16(7) == 268435456);
    assert(pow16(8) == 4294967296);
    assert(pow16(9) == 68719476736);
    assert(pow16(10) == 1099511627776);
    assert(pow16(11) == 17592186044416);
    assert(pow16(12) == 281474976710656);
    assert(pow16(13) == 4503599627370496);
    assert(pow16(14) == 72057594037927936);
    assert(pow16(15) == 1152921504606846976);
    assert(pow16(16) == 18446744073709551616);
}

/// Distinct log positions have distinct identifiers.
pub proof fn lemma_commit_id_distinct(i: nat, j: nat)
    requires
        i != j,
        i < 0x10000000000000000,
        j < 0x10000000000000000,
    ensures
        commit_id_of(i) != commit_id_of(j),
{
    lemma_pow16_width();
    if commit_id_of(i) == commit_id_of(j) {
        lemma_hex_seq_injective(i, j, id_width());
    }
}

/// A full identifier is a prefix of another full identifier only when
/// the two positions coincide.
pub proof fn lemma_commit_id_prefix_full(i: nat, j: nat)
    requires
        i < 0x10000000000000000,
        j < 0x10000000000000000,
        is_prefix_of(commit_id_of(i), commit_id_of(j)),
    ensures
        i == j,
{
    lemma_hex_seq_len(i, id_width());
    lemma_hex_seq_len(j, id_width());
    assert(commit_id_of(j).subrange(0, id_width() as int) =~= commit_id_of(j));
    if i != j {
        lemma_commit_id_distinct(i, j);
    }
}

/// A one-character string for the hexadecimal digit `d`.
fn hex_digit_str(d: u64) -> (s: &'static str)
    requires
        d < 16,
    ensures
        s@ == seq![hex_char_of(d as int)],
{
    if d == 0 {
        proof {
            reveal_strlit("0");
        }
        assert("0"@ =~= seq![hex_char_of(0)]);
        "0"
    } else if d == 1 {
        proof {
            reveal_strlit("1");
        }
        assert("1"@ =~= seq![hex_char_of(1)]);
        "1"
    } else if d == 2 {
        proof {
            reveal_strlit("2");
        }
        assert("2"@ =~= seq![hex_char_of(2)]);
        "2"
    } else if d == 3 {
        proof {
            reveal_strlit("3");
        }
        assert("3"@ =~= seq![hex_char_of(3)]);
        "3"
    } else if d == 4 {
        proof {
            reveal_strlit("4");
        }
        assert("4"@ =~= seq![hex_char_of(4)]);
        "4"
    } else if d == 5 {
        proof {
            reveal_strlit("5");
        }
        assert("5"@ =~= seq![hex_char_of(5)]);
        "5"
    } else if d == 6 {
        proof {
            reveal_strlit("6");
        }
        assert("6"@ =~= seq![hex_char_of(6)]);
        "6"
    } else if d == 7 {
        proof {
            reveal_strlit("7");
        }
        assert("7"@ =~= seq![hex_char_of(7)]);
        "7"
    } else if d == 8 {
        proof {
            reveal_strlit("8");
        }
        assert("8"@ =~= seq![hex_char_of(8)]);
        "8"
    } else if d == 9 {
        proof {
            reveal_strlit("9");
        }
        assert("9"@ =~= seq![hex_char_of(9)]);
        "9"
    } else if d == 10 {
        proof {
            reveal_strlit("a");
        }
        assert("a"@ =~= seq![hex_char_of(10)]);
        "a"
    } else if d == 11 {
        proof {
            reveal_strlit("b");
        }
        assert("b"@ =~= seq![hex_char_of(11)]);
        "b"
    } else if d == 12 {
        proof {
            reveal_strlit("c");
        }
        assert("c"@ =~= seq![hex_char_of(12)]);
        "c"
    } else if d == 13 {
        proof {
            reveal_strlit("d");
        }
        assert("d"@ =~= seq![hex_char_of(13)]);
        "d"
    } else if d == 14 {
        proof {
            reveal_strlit("e");
        }
        assert("e"@ =~= seq![hex_char_of(14)]);
        "e"
    } else {
        proof {
            reveal_strlit("f");
        }
        assert("f"@ =~= seq![hex_char_of(15)]);
        "f"
    }
}

fn hex_str(n: u64, width: u64) -> (s: String)
    ensures
        s@ == hex_seq(n as nat, width as nat),
    decreases width,
{
    if width == 0 {
        String::new()
    } else {
        let mut s = hex_str(n / 16, width - 1);
        let digit = hex_digit_str(n % 16);
        s.append(digit);
        proof {
            assert(s@ =~= hex_seq(n as nat, width as nat));
        }
        s
    }
}

/// Renders the identifier of the commit at log position `n`.
pub fn commit_id_string(n: u64) -> (s: String)
    ensures
        s@ == commit_id_of(n as nat),
{
    hex_str(n, 16)
}

} // verus!
