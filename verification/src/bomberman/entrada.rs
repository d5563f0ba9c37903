use crate::text::{copy_range, dec_value, is_dec, parse_u64};
use vstd::prelude::*;

verus! {

/// The number that a text spells in decimal, with or without a sign before
/// its digits, when it lies between -2147483648 and 2147483647.
pub open spec fn number_of(text: Seq<u8>) -> Option<int> {
    let signed = text.len() > 0 && (text[0] == 43 || text[0] == 45);
    let digits = if signed {
        text.subrange(1, text.len() as int)
    } else {
        text
    };
    let value = if text.len() > 0 && text[0] == 45 {
        -(dec_value(digits) as int)
    } else {
        dec_value(digits) as int
    };
    if is_dec(digits) && digits.len() <= 18 && -2147483648 <= value <= 2147483647 {
        Some(value)
    } else {
        None
    }
}

/// Reads a text as a number.
pub fn parse_number(text: &[u8]) -> (r: Option<i32>)
    ensures
        match r {
            Some(n) => number_of(text@) == Some(n as int),
            None => number_of(text@) is None,
        },
{
    let signed = text.len() > 0 && (text[0] == 43 || text[0] == 45);
    let digits = if signed {
        copy_range(text, 1, text.len())
    } else {
        let all = copy_range(text, 0, text.len());
        assert(all@ =~= text@);
        all
    };
    if digits.len() > 18 {
        return None;
    }
    let value: u64 = match parse_u64(digits.as_slice()) {
        Some(v) => v,
        None => {
            proof {
                if is_dec(digits@) {
                    crate::text::lemma_dec_bound(digits@);
                }
            }
            return None;
        },
    };
    if text.len() > 0 && text[0] == 45 {
        if value > 2147483648 {
            None
        } else if value == 2147483648 {
            Some(i32::MIN)
        } else {
            Some(-(value as i32))
        }
    } else if value > 2147483647 {
        None
    } else {
        Some(value as i32)
    }
}

/// What the arguments of the program ask for: the name of the file to read,
/// the place to write to, and the column and the row of the bomb to set
/// off. The arguments after the name of the program are these four, in this
/// order.
pub fn valores_entrada(args: &Vec<Vec<u8>>) -> (r: Result<(Vec<u8>, Vec<u8>, i32, i32), bool>)
    ensures
        match r {
            Ok((name, path, x, y)) => args@.len() >= 5 && name@ == args@[1]@ && path@
                == args@[2]@ && number_of(args@[3]@) == Some(x as int) && number_of(args@[4]@)
                == Some(y as int),
            Err(in_x) => args@.len() < 5 || if in_x {
                number_of(args@[3]@) is None
            } else {
                number_of(args@[3]@) is Some && number_of(args@[4]@) is None
            },
        },
{
    if args.len() < 5 {
        return Err(true);
    }
    let num_x = match parse_number(args[3].as_slice()) {
        Some(n) => n,
        None => {
            return Err(true);
        },
    };
    let num_y = match parse_number(args[4].as_slice()) {
        Some(n) => n,
        None => {
            return Err(false);
        },
    };
    Ok((args[1].clone(), args[2].clone(), num_x, num_y))
}

} // verus!
