//! Hour cells: the fixed-width text of one hour slot of a timezone row.
//!
//! A cell shows the local hour (zero-padded 24h form, or a space-padded
//! 1-2 digit hour with an `am`/`pm` marker), then a day-crossing suffix
//! (`+` for a later calendar day than the reference, `-` for an earlier
//! one, a space for the same day). The slot at offset zero - the current
//! hour - is wrapped as `"| ..|"`; every other slot gets a single leading
//! space and no trailing pipe.

use vstd::prelude::*;
use vstd::string::StringExecFns;

verus! {

pub open spec fn digit_char(d: int) -> char {
    if d == 0 {
        '0'
    } else if d == 1 {
        '1'
    } else if d == 2 {
        '2'
    } else if d == 3 {
        '3'
    } else if d == 4 {
        '4'
    } else if d == 5 {
        '5'
    } else if d == 6 {
        '6'
    } else if d == 7 {
        '7'
    } else if d == 8 {
        '8'
    } else {
        '9'
    }
}

/// Two-digit zero-padded decimal text of `n` (for `0 <= n <= 99`).
pub open spec fn two_digits(n: int) -> Seq<char> {
    seq![digit_char(n / 10), digit_char(n % 10)]
}

/// The 12-hour-clock number of the 24h hour `hour`: 12 for 0 and 12,
/// otherwise the hour modulo 12.
pub open spec fn hour12_val(hour: int) -> int {
    if hour % 12 == 0 {
        12
    } else {
        hour % 12
    }
}

/// The hour text of a cell: `"{hour:02}"` in 24h form, or
/// `"{h12:>2} am"` / `"{h12:>2} pm"` in 12h form.
pub open spec fn hour_label(hour: int, am_pm: bool) -> Seq<char> {
    if am_pm {
        (if hour12_val(hour) < 10 {
            seq![' ', digit_char(hour12_val(hour))]
        } else {
            two_digits(hour12_val(hour))
        }) + (if hour >= 12 {
            seq![' ', 'p', 'm']
        } else {
            seq![' ', 'a', 'm']
        })
    } else {
        two_digits(hour)
    }
}

/// The day-crossing marker: how the slot's local calendar date (as a day
/// count) compares to the reference instant's local calendar date in the
/// same timezone. Full dates are compared, so a slot on the first of the
/// next month still reads as a later day.
pub open spec fn day_suffix(shifted_date: int, ref_date: int) -> char {
    if shifted_date > ref_date {
        '+'
    } else if shifted_date < ref_date {
        '-'
    } else {
        ' '
    }
}

/// The full text of one hour cell.
pub open spec fn cell_text(hour: int, sfx: char, current: bool, am_pm: bool) -> Seq<char> {
    if current {
        seq!['|', ' '] + hour_label(hour, am_pm) + seq![sfx] + seq!['|']
    } else {
        seq![' '] + hour_label(hour, am_pm) + seq![sfx]
    }
}

/// A cell carries the wrapped current-hour marking exactly when it opens
/// with a pipe.
pub open spec fn is_current_cell(c: Seq<char>) -> bool {
    c.len() > 0 && c[0] == '|'
}

/// The day-crossing suffix of a cell: its last character, or the one
/// before the closing pipe on the current-hour cell.
pub open spec fn cell_suffix(c: Seq<char>) -> char {
    if is_current_cell(c) {
        c[c.len() - 2]
    } else {
        c[c.len() - 1]
    }
}

/// The hour label is two characters in 24h form and five in 12h form.
pub proof fn lemma_hour_label_len(hour: int, am_pm: bool)
    ensures
        hour_label(hour, am_pm).len() == if am_pm {
            5int
        } else {
            2int
        },
{
}

/// A cell is marked as the current hour exactly when it was built as the
/// current slot.
pub proof fn lemma_cell_current_marker(hour: int, sfx: char, current: bool, am_pm: bool)
    ensures
        is_current_cell(cell_text(hour, sfx, current, am_pm)) == current,
{
    lemma_hour_label_len(hour, am_pm);
}

/// The suffix slot of a cell holds exactly the day-crossing marker it was
/// built with.
pub proof fn lemma_cell_suffix(hour: int, sfx: char, current: bool, am_pm: bool)
    ensures
        cell_suffix(cell_text(hour, sfx, current, am_pm)) == sfx,
{
    lemma_cell_current_marker(hour, sfx, current, am_pm);
    lemma_hour_label_len(hour, am_pm);
}

fn digit_str(d: u32) -> (r: &'static str)
    requires
        d < 10,
    ensures
        r@ == seq![digit_char(d as int)],
{
    if d == 0 {
        proof {
            reveal_strlit("0");
            assert("0"@ =~= seq![digit_char(0)]);
        }
        "0"
    } else if d == 1 {
        proof {
            reveal_strlit("1");
            assert("1"@ =~= seq![digit_char(1)]);
        }
        "1"
    } else if d == 2 {
        proof {
            reveal_strlit("2");
            assert("2"@ =~= seq![digit_char(2)]);
        }
        "2"
    } else if d == 3 {
        proof {
            reveal_strlit("3");
            assert("3"@ =~= seq![digit_char(3)]);
        }
        "3"
    } else if d == 4 {
        proof {
            reveal_strlit("4");
            assert("4"@ =~= seq![digit_char(4)]);
        }
        "4"
    } else if d == 5 {
        proof {
            reveal_strlit("5");
            assert("5"@ =~= seq![digit_char(5)]);
        }
        "5"
    } else if d == 6 {
        proof {
            reveal_strlit("6");
            assert("6"@ =~= seq![digit_char(6)]);
        }
        "6"
    } else if d == 7 {
        proof {
            reveal_strlit("7");
            assert("7"@ =~= seq![digit_char(7)]);
        }
        "7"
    } else if d == 8 {
        proof {
            reveal_strlit("8");
            assert("8"@ =~= seq![digit_char(8)]);
        }
        "8"
    } else {
        proof {
            reveal_strlit("9");
            assert("9"@ =~= seq![digit_char(9)]);
        }
        "9"
    }
}

fn suffix_str(shifted_date: i32, ref_date: i32) -> (r: &'static str)
    ensures
        r@ == seq![day_suffix(shifted_date as int, ref_date as int)],
{
    if shifted_date > ref_date {
        proof {
            reveal_strlit("+");
            assert("+"@ =~= seq!['+']);
        }
        "+"
    } else if shifted_date < ref_date {
        proof {
            reveal_strlit("-");
            assert("-"@ =~= seq!['-']);
        }
        "-"
    } else {
        proof {
            reveal_strlit(" ");
            assert(" "@ =~= seq![' ']);
        }
        " "
    }
}

/// Builds the text of one hour cell: the local hour of the slot, the
/// day-crossing marker of its local calendar date against the reference's
/// local calendar date, wrapped as the current-hour cell when `current`
/// holds.
pub fn format_cell(hour: u32, shifted_date: i32, ref_date: i32, current: bool, am_pm: bool) -> (r:
    String)
    requires
        hour < 24,
    ensures
        r@ == cell_text(
            hour as int,
            day_suffix(shifted_date as int, ref_date as int),
            current,
            am_pm,
        ),
{
    let mut out = String::new();
    if current {
        proof {
            reveal_strlit("| ");
            assert("| "@ =~= seq!['|', ' ']);
        }
        out.append("| ");
    } else {
        proof {
            reveal_strlit(" ");
            assert(" "@ =~= seq![' ']);
        }
        out.append(" ");
    }
    if am_pm {
        let h12 = if hour % 12 == 0 {
            12
        } else {
            hour % 12
        };
        if h12 < 10 {
            proof {
                reveal_strlit(" ");
                assert(" "@ =~= seq![' ']);
            }
            out.append(" ");
            out.append(digit_str(h12));
        } else {
            out.append(digit_str(h12 / 10));
            out.append(digit_str(h12 % 10));
        }
        if hour >= 12 {
            proof {
                reveal_strlit(" pm");
                assert(" pm"@ =~= seq![' ', 'p', 'm']);
            }
            out.append(" pm");
        } else {
            proof {
                reveal_strlit(" am");
                assert(" am"@ =~= seq![' ', 'a', 'm']);
            }
            out.append(" am");
        }
    } else {
        out.append(digit_str(hour / 10));
        out.append(digit_str(hour % 10));
    }
    out.append(suffix_str(shifted_date, ref_date));
    if current {
        proof {
            reveal_strlit("|");
            assert("|"@ =~= seq!['|']);
        }
        out.append("|");
    }
    proof {
        assert(out@ =~= cell_text(
            hour as int,
            day_suffix(shifted_date as int, ref_date as int),
            current,
            am_pm,
        ));
    }
    out
}

} // verus!
