//! Reading whitespace-separated cell values from protocol text. Malformed
//! input is reported, never guessed at: a token that is not a decimal
//! number in range yields `None`.

use vstd::prelude::*;
use vstd::string::StringSliceAdditionalSpecFns;

verus! {

/// ASCII whitespace accepted between numbers.
pub open spec fn is_ws(b: u8) -> bool {
    b == 32 || b == 9 || b == 10 || b == 13
}

pub open spec fn is_digit(b: u8) -> bool {
    48 <= b <= 57
}

/// One step of the scan. The state is the values read so far and the value
/// of the token in progress, if one is open; `None` is a scan that has
/// failed on a stray byte or an out-of-range number.
pub open spec fn parse_step(
    st: Option<(Seq<u8>, Option<int>)>,
    b: u8,
) -> Option<(Seq<u8>, Option<int>)> {
    match st {
        Option::None => Option::None,
        Option::Some((vals, cur)) => {
            if is_ws(b) {
                match cur {
                    Option::None => Option::Some((vals, Option::None)),
                    Option::Some(v) => Option::Some((vals.push(v as u8), Option::None)),
                }
            } else if is_digit(b) {
                let base = match cur {
                    Option::None => 0int,
                    Option::Some(v) => v,
                };
                let v2 = base * 10 + (b - 48);
                if v2 > 255 {
                    Option::None
                } else {
                    Option::Some((vals, Option::Some(v2)))
                }
            } else {
                Option::None
            }
        },
    }
}

pub open spec fn parse_fold(s: Seq<u8>, i: int) -> Option<(Seq<u8>, Option<int>)>
    decreases i,
{
    if i <= 0 {
        Option::Some((Seq::empty(), Option::None))
    } else {
        match parse_fold(s, i - 1) {
            Option::None => Option::None,
            Option::Some(st) => parse_step(Option::Some(st), s[i - 1]),
        }
    }
}

/// A failed scan stays failed however much further it reads.
proof fn lemma_fold_sticky(s: Seq<u8>, i: int, j: int)
    requires
        0 <= i <= j,
        parse_fold(s, i) is None,
    ensures
        parse_fold(s, j) is None,
    decreases j - i,
{
    if i < j {
        lemma_fold_sticky(s, i, j - 1);
    }
}

/// The values encoded by a byte sequence: the numbers of its
/// whitespace-separated decimal tokens, or `None` where any byte is neither
/// a digit nor whitespace, or any token exceeds 255.
pub open spec fn parse_all(s: Seq<u8>) -> Option<Seq<u8>> {
    match parse_fold(s, s.len() as int) {
        Option::None => Option::None,
        Option::Some((vals, cur)) => match cur {
            Option::None => Option::Some(vals),
            Option::Some(v) => Option::Some(vals.push(v as u8)),
        },
    }
}

/// Reads the whitespace-separated cell values of a board description.
pub fn parse_board(board: &str) -> (r: Option<Vec<u8>>)
    ensures
        match r {
            Option::Some(v) => parse_all(board.spec_bytes()) == Option::Some(v@),
            Option::None => parse_all(board.spec_bytes()) == Option::<Seq<u8>>::None,
        },
{
    let bytes = board.as_bytes();
    let n = bytes.len();
    let mut out: Vec<u8> = Vec::new();
    let mut cur: u16 = 0;
    let mut open: bool = false;
    let mut i: usize = 0;
    while i < n
        invariant
            i <= n,
            n == bytes@.len(),
            bytes@ == board.spec_bytes(),
            cur <= 255,
            parse_fold(bytes@, i as int) == Option::Some(
                (out@, if open {
                    Option::Some(cur as int)
                } else {
                    Option::<int>::None
                }),
            ),
        decreases n - i,
    {
        let b = bytes[i];
        if b == 32 || b == 9 || b == 10 || b == 13 {
            if open {
                out.push(cur as u8);
                open = false;
                cur = 0;
            }
        } else if 48 <= b && b <= 57 {
            let v2: u16 = if open {
                cur * 10 + (b - 48) as u16
            } else {
                (b - 48) as u16
            };
            if v2 > 255 {
                proof {
                    lemma_fold_sticky(bytes@, i + 1, n as int);
                }
                return Option::None;
            }
            cur = v2;
            open = true;
        } else {
            proof {
                lemma_fold_sticky(bytes@, i + 1, n as int);
            }
            return Option::None;
        }
        i = i + 1;
    }
    if open {
        out.push(cur as u8);
    }
    Option::Some(out)
}

} // verus!
