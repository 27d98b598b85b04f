//! Addresses: resolved (knot, stitch) locations within a story, and the
//! resolution of textual references against the story graph.
//!
//! A reference resolves against the caller's current location:
//! `"knot.stitch"` names both parts; a bare name is first tried as a stitch
//! of the current knot, then as a knot (entered at its default stitch); an
//! empty reference is invalid.

use vstd::prelude::*;
use vstd::string::*;
use crate::error::InklingError;
use crate::knot::Stitch;
use crate::story::Knots;
use crate::text::{chars_to_string, find_char_idx, lemma_find_char_idx, str_chars};

verus! {

/// A resolved location: the names of a knot and of a stitch within it.
#[derive(Clone, Debug, PartialEq)]
pub struct Address {
    pub knot: String,
    pub stitch: String,
}

/// Whether the story holds a knot named `knot` with a stitch named `stitch`.
pub open spec fn knots_has_stitch(knots: Knots, knot: Seq<char>, stitch: Seq<char>) -> bool {
    knots.spec_contains(knot) && knots.spec_get(knot).stitches.spec_contains(stitch)
}

/// What the reference `target` resolves to against the current location:
/// the (knot, stitch) name pair, or `None` when the reference is invalid.
///
/// In the knot-fallback case the named knot's default stitch is returned
/// without checking that the knot holds it; dereferencing validates it.
pub open spec fn resolved_target(target: Seq<char>, current: Address, knots: Knots) -> Option<
    (Seq<char>, Seq<char>),
> {
    if target.len() == 0 {
        None
    } else {
        let d = find_char_idx(target, '.');
        if d < target.len() {
            let kn = target.subrange(0, d as int);
            let st = target.subrange(d as int + 1, target.len() as int);
            if knots_has_stitch(knots, kn, st) {
                Some((kn, st))
            } else {
                None
            }
        } else {
            if knots_has_stitch(knots, current.knot@, target) {
                Some((current.knot@, target))
            } else if knots.spec_contains(target) {
                Some((target, knots.spec_get(target).default_stitch@))
            } else {
                None
            }
        }
    }
}

impl Address {
    /// The address of a knot's default stitch, for entering the story at
    /// that knot.
    pub fn from_root_knot(root_knot_name: &str, knots: &Knots) -> (r: Result<Address, InklingError>)
        ensures
            knots.spec_contains(root_knot_name@) ==> (r matches Ok(a) && a.knot@ == root_knot_name@
                && a.stitch@ == knots.spec_get(root_knot_name@).default_stitch@),
            !knots.spec_contains(root_knot_name@) ==> (r matches Err(InklingError::InvalidAddress {
                knot: k,
                stitch: s,
            }) && k@ == root_knot_name@ && s is None),
    {
        match knots.get(root_knot_name) {
            Some(knot) => Ok(
                Address { knot: root_knot_name.to_owned(), stitch: knot.default_stitch.clone() },
            ),
            None => Err(
                InklingError::InvalidAddress { knot: root_knot_name.to_owned(), stitch: None },
            ),
        }
    }

    /// Resolve the reference `target` against the current address.
    pub fn from_target_address(target: &str, current_address: &Address, knots: &Knots) -> (r: Result<
        Address,
        InklingError,
    >)
        ensures
            resolved_target(target@, *current_address, *knots) matches Some(pair) ==> (r matches Ok(
                a,
            ) && a.knot@ == pair.0 && a.stitch@ == pair.1),
            resolved_target(target@, *current_address, *knots) is None ==> (r matches Err(
                InklingError::InvalidAddress { .. },
            )),
    {
        let v = str_chars(target);
        let n = v.len();
        if n == 0 {
            return Err(InklingError::InvalidAddress { knot: target.to_owned(), stitch: None });
        }
        // find a separating '.'
        let mut d: usize = 0;
        while d < n && v[d] != '.'
            invariant
                d <= n <= v@.len(),
                forall|j: int| 0 <= j < d ==> v@[j] != '.',
            decreases n - d,
        {
            d = d + 1;
        }
        proof {
            lemma_find_char_idx(v@, '.', d as int);
        }
        if d < n {
            let kn = chars_to_string(&v, 0, d);
            let st = chars_to_string(&v, d + 1, n);
            match knots.get(kn.as_str()) {
                Some(knot) => {
                    if knot.stitches.contains_key(st.as_str()) {
                        Ok(Address { knot: kn, stitch: st })
                    } else {
                        Err(InklingError::InvalidAddress { knot: kn, stitch: Some(st) })
                    }
                },
                None => Err(InklingError::InvalidAddress { knot: kn, stitch: None }),
            }
        } else {
            proof {
                assert(v@.subrange(0, n as int) =~= target@);
            }
            match knots.get(current_address.knot.as_str()) {
                Some(knot) => {
                    if knot.stitches.contains_key(target) {
                        return Ok(
                            Address {
                                knot: current_address.knot.clone(),
                                stitch: target.to_owned(),
                            },
                        );
                    }
                },
                None => {},
            }
            match knots.get(target) {
                Some(knot) => Ok(
                    Address { knot: target.to_owned(), stitch: knot.default_stitch.clone() },
                ),
                None => Err(InklingError::InvalidAddress { knot: target.to_owned(), stitch: None }),
            }
        }
    }
}

/// The stitch an address points at.
pub fn get_stitch<'a>(address: &Address, knots: &'a Knots) -> (r: Result<&'a Stitch, InklingError>)
    ensures
        knots_has_stitch(*knots, address.knot@, address.stitch@) ==> (r matches Ok(st) && *st
            == knots.spec_get(address.knot@).stitches.spec_get(address.stitch@)),
        !knots_has_stitch(*knots, address.knot@, address.stitch@) ==> (r matches Err(
            InklingError::InvalidAddress { .. },
        )),
{
    match knots.get(address.knot.as_str()) {
        Some(knot) => match knot.stitches.get(address.stitch.as_str()) {
            Some(stitch) => Ok(stitch),
            None => Err(
                InklingError::InvalidAddress {
                    knot: address.knot.clone(),
                    stitch: Some(address.stitch.clone()),
                },
            ),
        },
        None => Err(InklingError::InvalidAddress { knot: address.knot.clone(), stitch: None }),
    }
}

} // verus!
