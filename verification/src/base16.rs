//! The names of a base16 scheme and the order its colors take.
use vstd::prelude::*;
use vstd::string::StringExecFns;

use crate::cache::{lower_hex_char, lower_hex_digit, ArgbHelper};
use crate::lexer::push_char;

verus! {

/// The name of the `k`-th color of a base16 scheme: `base00` to `base0f`.
pub open spec fn base16_name(k: int) -> Seq<char> {
    "base0"@.push(lower_hex_digit(k))
}

/// The base16 scheme of a gray ramp and accent colors: `base00` to `base07`
/// take the eight grays, from the first (lightest) in a light scheme and
/// from the last in a dark one; `base08` to `base0f` take the accents in
/// turn, starting over when they run out.
pub open spec fn base16_entry(grays: Seq<ArgbHelper>, accents: Seq<ArgbHelper>, dark: bool, k: int) -> ArgbHelper {
    if k < 8 {
        if dark {
            grays[7 - k]
        } else {
            grays[k]
        }
    } else {
        accents[(k - 8) % accents.len() as int]
    }
}

/// The sixteen named colors of a base16 scheme, in order, as `base16_name`
/// and `base16_entry` say.
pub fn base16_scheme(grays: &Vec<ArgbHelper>, accents: &Vec<ArgbHelper>, dark: bool) -> (res: Vec<(String, ArgbHelper)>)
    requires
        grays@.len() == 8,
        accents@.len() > 0,
    ensures
        res@.len() == 16,
        forall|k: int|
            0 <= k < 16 ==> (#[trigger] res@[k]).0@ == base16_name(k) && res@[k].1 == base16_entry(
                grays@,
                accents@,
                dark,
                k,
            ),
{
    let mut res: Vec<(String, ArgbHelper)> = Vec::new();
    let mut k: u8 = 0;
    while k < 16
        invariant
            k <= 16,
            grays@.len() == 8,
            accents@.len() > 0,
            res@.len() == k,
            forall|j: int|
                0 <= j < k ==> (#[trigger] res@[j]).0@ == base16_name(j) && res@[j].1 == base16_entry(
                    grays@,
                    accents@,
                    dark,
                    j,
                ),
        decreases 16 - k,
    {
        let mut name = String::from_str("base0");
        push_char(&mut name, lower_hex_char(k));
        let c = if k < 8 {
            if dark {
                grays[(7 - k) as usize]
            } else {
                grays[k as usize]
            }
        } else {
            accents[(k as usize - 8) % accents.len()]
        };
        proof {
            reveal_strlit("base0");
        }
        res.push((name, c));
        k = k + 1;
    }
    res
}

/// A dark scheme is a light scheme with its gray ramp reversed: for each
/// `k < 8`, the `k`-th color of the dark scheme is the `(7 - k)`-th of the
/// light scheme, and the accents are the same in both.
pub proof fn lemma_dark_reverses_grays(grays: Seq<ArgbHelper>, accents: Seq<ArgbHelper>)
    requires
        grays.len() == 8,
        accents.len() > 0,
    ensures
        forall|k: int| 0 <= k < 8 ==> #[trigger] base16_entry(grays, accents, true, k) == base16_entry(grays, accents, false, 7 - k),
        forall|k: int| 8 <= k < 16 ==> #[trigger] base16_entry(grays, accents, true, k) == base16_entry(grays, accents, false, k),
        forall|k: int| 0 <= k < 8 ==> #[trigger] base16_entry(grays, accents, false, k) == grays[k],
{
}

} // verus!
