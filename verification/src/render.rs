use vstd::prelude::*;
use crate::board::{byte_ok, occ, occ_at, Board};
use crate::codec::board_bytes;
use crate::piece::kind_char;

verus! {

/// A human-readable rendering of a packed position: the framed board rows
/// with coordinate headers, followed by the two lists of captured pieces.
/// The digit character of a row or column number.
pub open spec fn grid_digit_char(n: int) -> char {
    if n == 0 {
        '0'
    } else if n == 1 {
        '1'
    } else if n == 2 {
        '2'
    } else {
        '3'
    }
}

/// The kinds of the captured pieces of one side (odd parity for the first
/// player), in slot order.
pub open spec fn dead_kinds(s: Seq<u64>, parity: int, i: int) -> Seq<u64>
    decreases 8 - i,
{
    if i < 0 || i >= 8 {
        Seq::empty()
    } else {
        let rest = dead_kinds(s, parity, i + 1);
        if s[i] % 16 == 12 && (s[i] / 16) % 2 == parity {
            seq![s[i] / 16] + rest
        } else {
            rest
        }
    }
}

/// One rendered board row of a packed position, bordered by its row number.
pub open spec fn grid_row_chars(s: Seq<u64>, y: int) -> Seq<char> {
    seq![grid_digit_char(y)] + " | "@ + seq![kind_char(occ(s, 3 * y) as int)] + " "@ + seq![
        kind_char(occ(s, 3 * y + 1) as int),
    ] + " "@ + seq![kind_char(occ(s, 3 * y + 2) as int)] + " "@ + "| "@ + seq![grid_digit_char(y)]
}

/// A list of captured kinds rendered as quoted characters, from entry `i`
/// on, comma-separated.
pub open spec fn kind_list_chars(ks: Seq<u64>, i: int) -> Seq<char>
    decreases ks.len() - i,
{
    if i < 0 || i >= ks.len() {
        Seq::empty()
    } else {
        (if i > 0 {
            ", "@
        } else {
            Seq::empty()
        }) + "\""@ + seq![kind_char(ks[i] as int)] + "\""@ + kind_list_chars(ks, i + 1)
    }
}

/// The full rendering of a packed position.
pub open spec fn debug_board_chars(s: Seq<u64>) -> Seq<char> {
    "##############\n"@ + "    0 1 2"@ + "\n"@ + grid_row_chars(s, 3) + "\n"@ + grid_row_chars(
        s,
        2,
    ) + "\n"@ + grid_row_chars(s, 1) + "\n"@ + grid_row_chars(s, 0) + "\n"@ + "    0 1 2"@ + "\n"@
        + "##############\n"@ + "White cemetery: "@ + "["@ + kind_list_chars(
        dead_kinds(s, 1, 0),
        0,
    ) + "]"@ + "\n"@ + "Black cemetery: "@ + "["@ + kind_list_chars(dead_kinds(s, 0, 0), 0) + "]"@
}

/// The single-character string of a piece kind.
fn kind_label(k: u64) -> (r: &'static str)
    ensures
        r@ == seq![kind_char(k as int)],
{
    if k == 1 {
        proof {
            reveal_strlit("l");
        }
        "l"
    } else if k == 2 {
        proof {
            reveal_strlit("L");
        }
        "L"
    } else if k == 3 {
        proof {
            reveal_strlit("e");
        }
        "e"
    } else if k == 4 {
        proof {
            reveal_strlit("E");
        }
        "E"
    } else if k == 5 {
        proof {
            reveal_strlit("g");
        }
        "g"
    } else if k == 6 {
        proof {
            reveal_strlit("G");
        }
        "G"
    } else if k == 7 {
        proof {
            reveal_strlit("c");
        }
        "c"
    } else if k == 8 {
        proof {
            reveal_strlit("C");
        }
        "C"
    } else if k == 9 {
        proof {
            reveal_strlit("h");
        }
        "h"
    } else if k == 10 {
        proof {
            reveal_strlit("H");
        }
        "H"
    } else {
        proof {
            reveal_strlit(" ");
        }
        " "
    }
}

/// The single-character string of a row or column number.
fn grid_digit_label(n: u64) -> (r: &'static str)
    requires
        n <= 3,
    ensures
        r@ == seq![grid_digit_char(n as int)],
{
    if n == 0 {
        proof {
            reveal_strlit("0");
        }
        "0"
    } else if n == 1 {
        proof {
            reveal_strlit("1");
        }
        "1"
    } else if n == 2 {
        proof {
            reveal_strlit("2");
        }
        "2"
    } else {
        proof {
            reveal_strlit("3");
        }
        "3"
    }
}

/// Appends a captured-kind list rendered as quoted characters.
fn append_kind_list(s: &mut String, ks: &Vec<u64>)
    ensures
        final(s)@ == old(s)@ + kind_list_chars(ks@, 0),
{
    let ghost base = s@;
    let mut i: usize = 0;
    while i < ks.len()
        invariant
            i <= ks@.len(),
            s@ + kind_list_chars(ks@, i as int) == base + kind_list_chars(ks@, 0),
        decreases ks@.len() - i,
    {
        let ghost pre = s@;
        if i > 0 {
            s.append(", ");
        }
        s.append("\"");
        s.append(kind_label(ks[i]));
        s.append("\"");
        proof {
            if i > 0 {
                assert(s@ =~= pre + (", "@ + "\""@ + seq![kind_char(ks@[i as int] as int)]
                    + "\""@));
            } else {
                assert(s@ =~= pre + (Seq::<char>::empty() + "\""@ + seq![
                    kind_char(ks@[i as int] as int),
                ] + "\""@));
            }
            assert(pre + kind_list_chars(ks@, i as int) =~= s@ + kind_list_chars(
                ks@,
                i as int + 1,
            ));
        }
        i = i + 1;
    }
    proof {
        assert(kind_list_chars(ks@, ks@.len() as int) =~= Seq::<char>::empty());
        assert(s@ + Seq::<char>::empty() =~= s@);
    }
}

/// Appends one rendered row of the occupancy grid.
fn append_grid_row(s: &mut String, bytes: &Vec<u64>, y: u64)
    requires
        bytes@.len() == 8,
        y <= 3,
        forall|q: int| 0 <= q < 12 ==> #[trigger] occ(bytes@, q) <= 15,
    ensures
        final(s)@ == old(s)@ + grid_row_chars(bytes@, y as int),
{
    s.append(grid_digit_label(y));
    s.append(" | ");
    s.append(kind_label(occ_at(bytes, 3 * y)));
    s.append(" ");
    s.append(kind_label(occ_at(bytes, 3 * y + 1)));
    s.append(" ");
    s.append(kind_label(occ_at(bytes, 3 * y + 2)));
    s.append(" ");
    s.append("| ");
    s.append(grid_digit_label(y));
    proof {
        assert(s@ =~= old(s)@ + grid_row_chars(bytes@, y as int));
    }
}

impl Board {
    /// The human-readable rendering of this position: the framed board rows
    /// with coordinate headers and the two lists of captured pieces.
    pub fn debug_show_board_string(&self) -> (r: String)
        requires
            self.nibbles_ok(),
            forall|i: int|
                0 <= i < 8 && (#[trigger] self.bytes()[i]) % 16 == 12 ==> self.bytes()[i] / 16
                    != 0,
        ensures
            r@ == debug_board_chars(self.bytes()),
    {
        let ghost sb = self.bytes();
        let bytes = board_bytes(self.0);
        let mut white_cemetery: Vec<u64> = Vec::new();
        let mut black_cemetery: Vec<u64> = Vec::new();
        let mut i: usize = 0;
        while i < 8
            invariant
                i <= 8,
                bytes@ == sb,
                sb.len() == 8,
                dead_kinds(sb, 1, 0) == white_cemetery@ + dead_kinds(sb, 1, i as int),
                dead_kinds(sb, 0, 0) == black_cemetery@ + dead_kinds(sb, 0, i as int),
            decreases 8 - i,
        {
            let b = bytes[i];
            if b % 16 == 12 {
                if (b / 16) % 2 == 1 {
                    proof {
                        assert(dead_kinds(sb, 1, i as int) == seq![sb[i as int] / 16] + dead_kinds(
                            sb,
                            1,
                            i as int + 1,
                        ));
                        assert(dead_kinds(sb, 0, i as int) == dead_kinds(sb, 0, i as int + 1));
                        assert(white_cemetery@.push(sb[i as int] / 16) + dead_kinds(
                            sb,
                            1,
                            i as int + 1,
                        ) =~= white_cemetery@ + (seq![sb[i as int] / 16] + dead_kinds(
                            sb,
                            1,
                            i as int + 1,
                        )));
                    }
                    white_cemetery.push(b / 16);
                } else {
                    proof {
                        assert(dead_kinds(sb, 0, i as int) == seq![sb[i as int] / 16] + dead_kinds(
                            sb,
                            0,
                            i as int + 1,
                        ));
                        assert(dead_kinds(sb, 1, i as int) == dead_kinds(sb, 1, i as int + 1));
                        assert(black_cemetery@.push(sb[i as int] / 16) + dead_kinds(
                            sb,
                            0,
                            i as int + 1,
                        ) =~= black_cemetery@ + (seq![sb[i as int] / 16] + dead_kinds(
                            sb,
                            0,
                            i as int + 1,
                        )));
                    }
                    black_cemetery.push(b / 16);
                }
            } else {
                proof {
                    assert(dead_kinds(sb, 1, i as int) == dead_kinds(sb, 1, i as int + 1));
                    assert(dead_kinds(sb, 0, i as int) == dead_kinds(sb, 0, i as int + 1));
                }
            }
            i = i + 1;
        }
        proof {
            assert(dead_kinds(sb, 1, 8) =~= Seq::<u64>::empty());
            assert(dead_kinds(sb, 0, 8) =~= Seq::<u64>::empty());
            assert(white_cemetery@ + Seq::<u64>::empty() =~= white_cemetery@);
            assert(black_cemetery@ + Seq::<u64>::empty() =~= black_cemetery@);
            assert forall|q: int| 0 <= q < 12 implies #[trigger] occ(bytes@, q) <= 15 by {
                assert forall|t: int| 0 <= t < 8 implies #[trigger] sb[t] < 256 by {}
                crate::board::lemma_occ_bound(sb, 8, q);
            }
        }
        let mut s = String::from_str("");
        proof {
            reveal_strlit("");
            assert(s@ =~= Seq::<char>::empty());
        }
        s.append("##############\n");
        s.append("    0 1 2");
        s.append("\n");
        append_grid_row(&mut s, &bytes, 3);
        s.append("\n");
        append_grid_row(&mut s, &bytes, 2);
        s.append("\n");
        append_grid_row(&mut s, &bytes, 1);
        s.append("\n");
        append_grid_row(&mut s, &bytes, 0);
        s.append("\n");
        s.append("    0 1 2");
        s.append("\n");
        s.append("##############\n");
        s.append("White cemetery: ");
        s.append("[");
        append_kind_list(&mut s, &white_cemetery);
        s.append("]");
        s.append("\n");
        s.append("Black cemetery: ");
        s.append("[");
        append_kind_list(&mut s, &black_cemetery);
        s.append("]");
        proof {
            assert(s@ =~= debug_board_chars(sb));
        }
        s
    }
}

} // verus!
