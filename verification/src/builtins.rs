//! The parts of the built-in spreadsheet functions that do no arithmetic on
//! values: the text ADDRESS builds.
use vstd::prelude::*;
use crate::formula::ErrorKind;
use crate::text::{column_letters_spec, decimal_spec, push_char, push_column_letters, push_decimal};

verus! {

/// The text ADDRESS gives for a row, a column and an absolute-reference
/// style: 1 "$C$7", 2 "C$7", 3 "$C7", 4 "C7". The column is taken as a
/// 32-bit number.
pub open spec fn address_text_spec(row: usize, column: usize, absolute: usize) -> Seq<char> {
    let label = column_letters_spec((column as u32) as nat);
    let digits = decimal_spec(row as nat);
    if absolute == 1 {
        seq!['$'] + label + seq!['$'] + digits
    } else if absolute == 2 {
        label + seq!['$'] + digits
    } else if absolute == 3 {
        seq!['$'] + label + digits
    } else {
        label + digits
    }
}

/// The text of a cell address in one of the four absolute-reference styles
/// (1 to 4, see [`address_text_spec`]); `#VALUE!` for any other style.
pub fn address_text(row: usize, column: usize, absolute: usize) -> (r: Result<String, ErrorKind>)
    ensures
        r is Ok <==> 1 <= absolute <= 4,
        r is Ok ==> r->Ok_0@ == address_text_spec(row, column, absolute),
        r is Err ==> r->Err_0 == ErrorKind::Value,
{
    if absolute < 1 || absolute > 4 {
        return Err(ErrorKind::Value);
    }
    let col32 = column as u32;
    let mut out = String::new();
    if absolute == 1 || absolute == 3 {
        push_char(&mut out, '$');
    }
    push_column_letters(&mut out, col32);
    if absolute == 1 || absolute == 2 {
        push_char(&mut out, '$');
    }
    push_decimal(&mut out, row as u64);
    proof {
        let label = column_letters_spec((column as u32) as nat);
        let digits = decimal_spec(row as nat);
        if absolute == 1 {
            assert(out@ =~= seq!['$'] + label + seq!['$'] + digits);
        } else if absolute == 2 {
            assert(out@ =~= label + seq!['$'] + digits);
        } else if absolute == 3 {
            assert(out@ =~= seq!['$'] + label + digits);
        } else {
            assert(out@ =~= label + digits);
        }
    }
    Ok(out)
}

} // verus!
