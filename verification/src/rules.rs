use vstd::prelude::*;
use crate::charmap::{CharMap, lookup};
use crate::kagi::{Kagi, Rules2, dan_to_num, row_height};

verus! {

/// Both keys are struck by the same finger of the same hand.
pub open spec fn same_finger(a: Kagi, b: Kagi) -> bool {
    a.sayu == b.sayu && a.yubi == b.yubi
}

/// Both keys belong to one hand and lie more than one row apart.
pub open spec fn row_leap(a: Kagi, b: Kagi) -> bool {
    a.sayu == b.sayu && (row_height(a.dan) > row_height(b.dan) + 1 || row_height(b.dan)
        > row_height(a.dan) + 1)
}

/// `next` may follow `pre`: no finger repeats and no row is leapt over.
pub open spec fn allowed_pre(next: Kagi, pre: Kagi) -> bool {
    !same_finger(next, pre) && !row_leap(next, pre)
}

/// Some pair among three consecutive keys is struck by one finger.
pub open spec fn same_finger_among(next: Kagi, pre: Kagi, prre: Kagi) -> bool {
    same_finger(next, pre) || same_finger(next, prre) || same_finger(pre, prre)
}

/// Some pair among three consecutive keys leaps over a row.
pub open spec fn row_leap_among(next: Kagi, pre: Kagi, prre: Kagi) -> bool {
    row_leap(next, pre) || row_leap(next, prre) || row_leap(pre, prre)
}

/// The lenient three-key rule: no finger repeats among the three keys, and the last
/// step leaps over no row.
pub open spec fn allowed_little_fluent(next: Kagi, pre: Kagi, prre: Kagi) -> bool {
    !same_finger_among(next, pre, prre) && !row_leap(next, pre)
}

/// The strict three-key rule: no finger repeats and no row is leapt over among the three
/// keys.
pub open spec fn allowed_fluent(next: Kagi, pre: Kagi, prre: Kagi) -> bool {
    !same_finger_among(next, pre, prre) && !row_leap_among(next, pre, prre)
}

/// What `rule2` decides, given the key typed two steps back, if any.
pub open spec fn allowed_by(r: Rules2, next: Kagi, pre: Kagi, prre: Option<Kagi>) -> bool {
    match prre {
        None => allowed_pre(next, pre),
        Some(p) => match r {
            Rules2::Fluent => allowed_fluent(next, pre, p),
            Rules2::WnLittleFluent => allowed_little_fluent(next, pre, p),
        },
    }
}

/// Judges `next` after `pre` and the key typed before `pre` (named by its character and
/// looked up in `infos`) under rule `r`.
pub fn rule2(
    r: &Rules2,
    next: &Kagi,
    pre: &Kagi,
    prre: &Option<char>,
    infos: &CharMap<Kagi>,
) -> (ok: bool)
    requires
        *prre matches Some(c) ==> lookup(infos@, c) is Some,
    ensures
        ok == allowed_by(
            *r,
            *next,
            *pre,
            match *prre {
                None => None,
                Some(c) => lookup(infos@, c),
            },
        ),
{
    match r {
        Rules2::Fluent => match prre {
            None => rule_pre(next, pre),
            Some(prre) => {
                let k = infos.get(prre);
                rule_fluent(next, pre, k.unwrap())
            },
        },
        Rules2::WnLittleFluent => match prre {
            None => rule_pre(next, pre),
            Some(prre) => {
                let k = infos.get(prre);
                rule_wn_little_fluent(next, pre, k.unwrap())
            },
        },
    }
}

/// `next` may follow `pre`.
pub fn rule_pre(next: &Kagi, pre: &Kagi) -> (ok: bool)
    ensures
        ok == allowed_pre(*next, *pre),
{
    !fu_yubi_pre(next, pre) && !yue_dan_pre(next, pre)
}

/// The lenient three-key rule.
pub fn rule_wn_little_fluent(next: &Kagi, pre: &Kagi, prre: &Kagi) -> (ok: bool)
    ensures
        ok == allowed_little_fluent(*next, *pre, *prre),
{
    !fu_yubi_prre(next, pre, prre) && !yue_dan_pre(next, pre)
}

/// The strict three-key rule.
pub fn rule_fluent(next: &Kagi, pre: &Kagi, prre: &Kagi) -> (ok: bool)
    ensures
        ok == allowed_fluent(*next, *pre, *prre),
{
    !fu_yubi_prre(next, pre, prre) && !yue_dan_prre(next, pre, prre)
}

/// Some pair among the three keys is struck by one finger.
pub fn fu_yubi_prre(next: &Kagi, pre: &Kagi, prre: &Kagi) -> (b: bool)
    ensures
        b == same_finger_among(*next, *pre, *prre),
{
    fu_yubi_pre(next, pre) || fu_yubi_pre(next, prre) || fu_yubi_pre(pre, prre)
}

/// Both keys are struck by the same finger of the same hand.
pub fn fu_yubi_pre(next: &Kagi, pre: &Kagi) -> (b: bool)
    ensures
        b == same_finger(*next, *pre),
{
    next.sayu == pre.sayu && next.yubi == pre.yubi
}

/// Some pair among the three keys leaps over a row.
pub fn yue_dan_prre(next: &Kagi, pre: &Kagi, prre: &Kagi) -> (b: bool)
    ensures
        b == row_leap_among(*next, *pre, *prre),
{
    yue_dan_pre(next, pre) || yue_dan_pre(next, prre) || yue_dan_pre(pre, prre)
}

/// Both keys belong to one hand and lie more than one row apart.
pub fn yue_dan_pre(next: &Kagi, pre: &Kagi) -> (b: bool)
    ensures
        b == row_leap(*next, *pre),
{
    let a = dan_to_num(&next.dan);
    let c = dan_to_num(&pre.dan);
    let diff = if a >= c { a - c } else { c - a };
    next.sayu == pre.sayu && diff > 1
}

} // verus!
