//! Processing of collected lines into their final, displayable form, and
//! filtering of authored choices into the presentable list.
//!
//! Text assembly drops blank lines, trims every surviving line, and joins
//! lines with a newline unless "glue" suppresses it; glued lines keep at
//! most one separating space.  Choice filtering evaluates every condition,
//! hides exhausted non-sticky choices, and separates fallback choices from
//! ordinary ones.

use vstd::prelude::*;
use vstd::string::*;
use core::cmp::Ordering;
use crate::address::{get_stitch, knots_has_stitch, resolved_target, Address};
use crate::error::InklingError;
use crate::follow::{ChoiceInfo, LineDataBuffer};
use crate::line::{clone_strings, Condition, InternalLine};
use crate::story::{Choice, Knots, Line, LineBuffer};
use crate::text::{
    back_spaces_in, chars_to_string, is_blank, is_space, lemma_trim_end_idx, lemma_trim_start_idx,
    skip_spaces_in, str_chars, str_ends_with_char, str_is_blank, str_starts_with_char,
    string_push_char, trim_spec, trim_start_spec, trim_str,
};

verus! {

// ---------------------------------------------------------------------------
// Text assembly: the glue rules
// ---------------------------------------------------------------------------
/// A line survives the pre-filter unless its text is entirely whitespace.
pub open spec fn line_is_kept(l: InternalLine) -> bool {
    !is_blank(l.text@)
}

/// The lines of `s` that survive the blank-line filter, in order.
pub open spec fn surviving(s: Seq<InternalLine>) -> Seq<InternalLine>
    decreases s.len(),
{
    if s.len() == 0 {
        Seq::empty()
    } else {
        (if line_is_kept(s[0]) {
            seq![s[0]]
        } else {
            Seq::empty()
        }) + surviving(s.drop_first())
    }
}

pub open spec fn ends_with_space(t: Seq<char>) -> bool {
    t.len() > 0 && t[t.len() - 1] == ' '
}

pub open spec fn starts_with_space(t: Seq<char>) -> bool {
    t.len() > 0 && t[0] == ' '
}

/// Whether line `i` of `s` is glued to its successor: it suppresses the
/// separating newline, or the successor does.
pub open spec fn glued_at(s: Seq<InternalLine>, i: int) -> bool {
    i + 1 < s.len() && (s[i].glue_end || s[i + 1].glue_begin)
}

/// The final text of one line given its optional successor: trimmed, with
/// one space kept if the glued seam had whitespace on either side, and a
/// newline unless the seam is glued.
pub open spec fn line_ending_text(cur: InternalLine, next: Option<InternalLine>) -> Seq<char> {
    match next {
        Some(nl) => {
            let glue = cur.glue_end || nl.glue_begin;
            let space = glue && (ends_with_space(cur.text@) || starts_with_space(nl.text@));
            let base = trim_spec(cur.text@);
            let with_space = if space {
                base.push(' ')
            } else {
                base
            };
            if glue {
                with_space
            } else {
                with_space.push('\n')
            }
        },
        None => trim_spec(cur.text@).push('\n'),
    }
}

/// The final text of line `i` within the surviving buffer `s`.
pub open spec fn assembled_text(s: Seq<InternalLine>, i: int) -> Seq<char> {
    line_ending_text(
        s[i],
        if i + 1 < s.len() {
            Some(s[i + 1])
        } else {
            None
        },
    )
}

/// The successor line, dereferenced.
pub open spec fn opt_line(o: Option<&InternalLine>) -> Option<InternalLine> {
    match o {
        Some(l) => Some(*l),
        None => None,
    }
}

/// Rewrite a line's text to its final form: trimmed, then one space if the
/// line is glued to `next_line` across whitespace, then a newline unless it
/// is glued.
pub fn add_line_ending(line: &mut InternalLine, next_line: Option<&InternalLine>)
    ensures
        final(line).text@ == line_ending_text(*old(line), opt_line(next_line)),
        final(line).tags == old(line).tags,
        final(line).glue_begin == old(line).glue_begin,
        final(line).glue_end == old(line).glue_end,
{
    let glue = match next_line {
        Some(nl) => line.glue_end || nl.glue_begin,
        None => false,
    };
    let space = glue && (str_ends_with_char(line.text.as_str(), ' ') || (match next_line {
        Some(nl) => str_starts_with_char(nl.text.as_str(), ' '),
        None => false,
    }));
    let v = str_chars(line.text.as_str());
    let n = v.len();
    let a = skip_spaces_in(&v, 0, n);
    proof {
        lemma_trim_start_idx(v@, a as int);
    }
    let ghost t1 = trim_start_spec(line.text@);
    proof {
        assert(t1 =~= v@.subrange(a as int, n as int));
    }
    let b = back_spaces_in(&v, a, n);
    proof {
        assert forall|j: int| b - a <= j < t1.len() implies is_space(t1[j]) by {
            assert(t1[j] == v@[a + j]);
        }
        if b > a {
            assert(t1[b - a - 1] == v@[b as int - 1]);
        }
        lemma_trim_end_idx(t1, b - a);
        assert(trim_spec(line.text@) =~= v@.subrange(a as int, b as int));
    }
    let mut out = chars_to_string(&v, a, b);
    if space {
        string_push_char(&mut out, ' ');
    }
    if !glue {
        string_push_char(&mut out, '\n');
    }
    line.text = out;
}

/// Process collected lines to their final state: remove blank lines, trim,
/// and join under the glue rules.  The finished lines are appended to
/// `into_buffer`, each keeping its tags.
/// The output buffer has grown by exactly the finished forms of the
/// surviving input lines, in order, each keeping its tags; what was in it
/// stays untouched.
pub open spec fn buffer_extended(
    old_buf: Seq<Line>,
    new_buf: Seq<Line>,
    from: Seq<InternalLine>,
) -> bool {
    let s = surviving(from);
    let base = old_buf.len();
    &&& new_buf.len() == base + s.len()
    &&& forall|i: int| 0 <= i < base ==> new_buf[i] == old_buf[i]
    &&& forall|i: int|
        0 <= i < s.len() ==> (#[trigger] new_buf[base + i].text@ == assembled_text(s, i)
            && new_buf[base + i].tags == s[i].tags)
}

pub fn process_buffer(into_buffer: &mut LineBuffer, from_buffer: LineDataBuffer)
    ensures
        buffer_extended(old(into_buffer)@, final(into_buffer)@, from_buffer@),
{
    let ghost from0 = from_buffer@;
    let mut remaining = from_buffer;
    let mut survivors: Vec<InternalLine> = Vec::new();
    proof {
        assert(surviving(from0) =~= survivors@ + surviving(remaining@));
    }
    while remaining.len() > 0
        invariant
            surviving(from0) == survivors@ + surviving(remaining@),
        decreases remaining@.len(),
    {
        let ghost rem0 = remaining@;
        let l = remaining.remove(0);
        proof {
            assert(remaining@ =~= rem0.drop_first());
            assert(l == rem0[0]);
        }
        if !str_is_blank(l.text.as_str()) {
            survivors.push(l);
            proof {
                assert(surviving(rem0) == seq![rem0[0]] + surviving(rem0.drop_first()));
                assert(surviving(from0) =~= survivors@ + surviving(remaining@));
            }
        } else {
            proof {
                assert(surviving(rem0) =~= surviving(rem0.drop_first()));
            }
        }
    }
    proof {
        assert(remaining@.len() == 0);
        assert(surviving(remaining@) =~= Seq::<InternalLine>::empty());
        assert(surviving(from0) =~= survivors@);
    }
    let ghost surv = survivors@;
    let ghost base = into_buffer@.len();
    let n = survivors.len();
    let mut rest = survivors;
    let mut i: usize = 0;
    while i < n
        invariant
            n == surv.len(),
            i <= n,
            rest@ == surv.subrange(i as int, n as int),
            into_buffer@.len() == base + i,
            base == old(into_buffer)@.len(),
            surv == surviving(from0),
            forall|j: int| 0 <= j < base ==> into_buffer@[j] == old(into_buffer)@[j],
            forall|j: int|
                0 <= j < i ==> (#[trigger] into_buffer@[base + j].text@ == assembled_text(surv, j)
                    && into_buffer@[base + j].tags == surv[j].tags),
        decreases n - i,
    {
        let ghost rest0 = rest@;
        let mut cur = rest.remove(0);
        proof {
            assert(cur == surv[i as int]);
            assert(rest@ =~= surv.subrange(i as int + 1, n as int));
        }
        if rest.len() > 0 {
            proof {
                assert(rest@[0] == surv[i as int + 1]);
            }
            add_line_ending(&mut cur, Some(&rest[0]));
        } else {
            add_line_ending(&mut cur, None);
        }
        proof {
            assert(cur.text@ == assembled_text(surv, i as int));
            assert(cur.tags == surv[i as int].tags);
        }
        let out_line = Line { text: cur.text, tags: cur.tags };
        let ghost out_ghost = out_line;
        into_buffer.push(out_line);
        proof {
            assert(into_buffer@[base + i as int] == out_ghost);
            assert(into_buffer@[base + i as int].text@ == assembled_text(surv, i as int));
            assert(into_buffer@[base + i as int].tags == surv[i as int].tags);
        }
        i = i + 1;
    }
    proof {
        assert(into_buffer@.len() == base + surv.len());
        assert forall|j: int|
            0 <= j < surv.len() implies (#[trigger] into_buffer@[base + j].text@ == assembled_text(
            surv,
            j,
        ) && into_buffer@[base + j].tags == surv[j].tags) by {}
        assert(buffer_extended(old(into_buffer)@, into_buffer@, from0));
    }
}

// ---------------------------------------------------------------------------
// Condition evaluation
// ---------------------------------------------------------------------------
/// How `a` compares to `b`.
pub open spec fn ordering_of(a: int, b: int) -> Ordering {
    if a < b {
        Ordering::Less
    } else if a == b {
        Ordering::Equal
    } else {
        Ordering::Greater
    }
}

/// What a condition evaluates to against the story graph: `None` when its
/// target does not resolve to a stitch, else whether it holds.
pub open spec fn eval_condition(c: Condition, current: Address, knots: Knots) -> Option<bool> {
    match c {
        Condition::NumVisits { name, rhs_value, ordering, not } => {
            match resolved_target(name@, current, knots) {
                None => None,
                Some(pair) => {
                    if knots_has_stitch(knots, pair.0, pair.1) {
                        let visits = knots.spec_get(pair.0).stitches.spec_get(
                            pair.1,
                        ).num_visited as int;
                        Some((ordering_of(visits, rhs_value as int) == ordering) != not)
                    } else {
                        None
                    }
                },
            }
        },
    }
}

/// How `visits` compares to the authored right-hand side, as plain integers.
fn cmp_visits(visits: u32, rhs: i32) -> (r: Ordering)
    ensures
        r == ordering_of(visits as int, rhs as int),
{
    if rhs < 0 {
        Ordering::Greater
    } else {
        let r32: u32 = rhs as u32;
        proof {
            assert(r32 as int == rhs as int);
        }
        if visits < r32 {
            Ordering::Less
        } else if visits == r32 {
            Ordering::Equal
        } else {
            Ordering::Greater
        }
    }
}

/// Whether two orderings are the same.
fn ordering_eq(a: Ordering, b: Ordering) -> (r: bool)
    ensures
        r == (a == b),
{
    match (a, b) {
        (Ordering::Less, Ordering::Less) => true,
        (Ordering::Equal, Ordering::Equal) => true,
        (Ordering::Greater, Ordering::Greater) => true,
        _ => false,
    }
}

/// Evaluate one condition against the story graph.  Returns the condition's
/// value, or `InvalidAddress` when its target cannot be resolved.
pub fn check_condition(condition: &Condition, current_address: &Address, knots: &Knots) -> (r:
    Result<bool, InklingError>)
    ensures
        eval_condition(*condition, *current_address, *knots) matches Some(b) ==> (r matches Ok(rb)
            && rb == b),
        eval_condition(*condition, *current_address, *knots) is None ==> (r matches Err(
            InklingError::InvalidAddress { .. },
        )),
{
    match condition {
        Condition::NumVisits { name, rhs_value, ordering, not } => {
            let address = match Address::from_target_address(name.as_str(), current_address, knots) {
                Ok(a) => a,
                Err(e) => {
                    return Err(e);
                },
            };
            let stitch = match get_stitch(&address, knots) {
                Ok(s) => s,
                Err(e) => {
                    return Err(e);
                },
            };
            let num_visits: u32 = stitch.num_visited;
            let cmp = cmp_visits(num_visits, *rhs_value);
            let value = ordering_eq(cmp, *ordering);
            if *not {
                Ok(!value)
            } else {
                Ok(value)
            }
        },
    }
}

// ---------------------------------------------------------------------------
// Choice filtering
// ---------------------------------------------------------------------------
/// What a choice's condition list evaluates to: conditions are checked in
/// order until one fails to resolve (`None`) or evaluates to false.
pub open spec fn conditions_outcome(conds: Seq<Condition>, current: Address, knots: Knots) -> Option<
    bool,
>
    decreases conds.len(),
{
    if conds.len() == 0 {
        Some(true)
    } else {
        match eval_condition(conds[0], current, knots) {
            None => None,
            Some(false) => Some(false),
            Some(true) => conditions_outcome(conds.drop_first(), current, knots),
        }
    }
}

/// Whether a choice is kept by the filter: its conditions hold, it is sticky
/// or never yet taken, and its fallback flag matches the mode.
pub open spec fn choice_keep(ci: ChoiceInfo, fallback: bool, current: Address, knots: Knots) -> bool {
    &&& conditions_outcome(ci.choice_data.conditions@, current, knots) == Some(true)
    &&& (ci.choice_data.is_sticky || ci.num_visited == 0)
    &&& ci.choice_data.is_fallback == fallback
}

/// Whether every choice's condition walk resolves.
pub open spec fn choices_resolvable(choices: Seq<ChoiceInfo>, current: Address, knots: Knots) -> bool {
    forall|i: int|
        0 <= i < choices.len() ==> #[trigger] conditions_outcome(
            choices[i].choice_data.conditions@,
            current,
            knots,
        ) is Some
}

/// The authored indices of the choices the filter keeps, in order.
pub open spec fn kept_indices(
    choices: Seq<ChoiceInfo>,
    fallback: bool,
    current: Address,
    knots: Knots,
) -> Seq<int>
    decreases choices.len(),
{
    if choices.len() == 0 {
        Seq::empty()
    } else {
        kept_indices(choices.drop_last(), fallback, current, knots) + (if choice_keep(
            choices.last(),
            fallback,
            current,
            knots,
        ) {
            seq![choices.len() - 1]
        } else {
            Seq::empty()
        })
    }
}

/// The kept indices are exactly the authored positions of kept choices, in
/// increasing order.
pub proof fn lemma_kept_indices(
    choices: Seq<ChoiceInfo>,
    fallback: bool,
    current: Address,
    knots: Knots,
)
    ensures
        forall|j: int|
            0 <= j < kept_indices(choices, fallback, current, knots).len() ==> (0 <= #[trigger] kept_indices(
                choices,
                fallback,
                current,
                knots,
            )[j] < choices.len() && choice_keep(
                choices[kept_indices(choices, fallback, current, knots)[j]],
                fallback,
                current,
                knots,
            )),
        forall|i: int|
            0 <= i < choices.len() && choice_keep(choices[i], fallback, current, knots)
                ==> kept_indices(choices, fallback, current, knots).contains(i),
        forall|j1: int, j2: int|
            0 <= j1 < j2 < kept_indices(choices, fallback, current, knots).len() ==> kept_indices(
                choices,
                fallback,
                current,
                knots,
            )[j1] < kept_indices(choices, fallback, current, knots)[j2],
    decreases choices.len(),
{
    if choices.len() > 0 {
        let pre = choices.drop_last();
        lemma_kept_indices(pre, fallback, current, knots);
        let ks_pre = kept_indices(pre, fallback, current, knots);
        let ks = kept_indices(choices, fallback, current, knots);
        assert forall|j: int| 0 <= j < ks_pre.len() implies pre[ks_pre[j]] == choices[ks_pre[j]] by {}
        assert forall|i: int|
            0 <= i < choices.len() && choice_keep(choices[i], fallback, current, knots) implies ks.contains(
            i,
        ) by {
            if i < choices.len() - 1 {
                assert(pre[i] == choices[i]);
                assert(ks_pre.contains(i));
                let w = choose|w: int| 0 <= w < ks_pre.len() && ks_pre[w] == i;
                assert(ks[w] == i);
            } else {
                assert(ks[ks.len() - 1] == i);
            }
        }
    }
}

/// Evaluate the filter for every authored choice, in order.  `Ok` holds one
/// flag per choice exactly when every condition walk resolves.
pub fn check_choices_for_conditions(
    choices: &Vec<ChoiceInfo>,
    current_address: &Address,
    knots: &Knots,
    keep_only_fallback: bool,
) -> (r: Result<Vec<bool>, InklingError>)
    ensures
        choices_resolvable(choices@, *current_address, *knots) ==> (r matches Ok(v) && v@.len()
            == choices@.len() && forall|i: int|
            0 <= i < choices@.len() ==> v@[i] == choice_keep(
                choices@[i],
                keep_only_fallback,
                *current_address,
                *knots,
            )),
        !choices_resolvable(choices@, *current_address, *knots) ==> (r matches Err(
            InklingError::InvalidAddress { .. },
        )),
{
    let mut checked: Vec<bool> = Vec::new();
    let mut i: usize = 0;
    while i < choices.len()
        invariant
            i <= choices@.len(),
            checked@.len() == i,
            forall|j: int|
                0 <= j < i ==> #[trigger] conditions_outcome(
                    choices@[j].choice_data.conditions@,
                    *current_address,
                    *knots,
                ) is Some,
            forall|j: int|
                0 <= j < i ==> checked@[j] == choice_keep(
                    choices@[j],
                    keep_only_fallback,
                    *current_address,
                    *knots,
                ),
        decreases choices@.len() - i,
    {
        let conds = &choices[i].choice_data.conditions;
        let m = conds.len();
        let mut keep = true;
        let mut j: usize = 0;
        proof {
            assert(conds@.subrange(0, m as int) =~= conds@);
        }
        while j < m && keep
            invariant
                i < choices@.len(),
                conds@ == choices@[i as int].choice_data.conditions@,
                m == conds@.len(),
                j <= m,
                conditions_outcome(conds@, *current_address, *knots) == (if keep {
                    conditions_outcome(
                        conds@.subrange(j as int, m as int),
                        *current_address,
                        *knots,
                    )
                } else {
                    Some(false)
                }),
            decreases m - j,
        {
            let ghost suffix = conds@.subrange(j as int, m as int);
            let value = match check_condition(&conds[j], current_address, knots) {
                Ok(b) => b,
                Err(e) => {
                    proof {
                        assert(suffix[0] == conds@[j as int]);
                        assert(conditions_outcome(suffix, *current_address, *knots) is None);
                        assert(conditions_outcome(conds@, *current_address, *knots) is None);
                        assert(!choices_resolvable(choices@, *current_address, *knots));
                    }
                    return Err(e);
                },
            };
            proof {
                assert(suffix[0] == conds@[j as int]);
                assert(suffix.drop_first() =~= conds@.subrange(j as int + 1, m as int));
            }
            keep = value;
            j = j + 1;
        }
        proof {
            if keep {
                assert(conds@.subrange(j as int, m as int).len() == 0);
            }
            assert(conditions_outcome(conds@, *current_address, *knots) == Some(keep));
        }
        let keep_all = keep && (choices[i].choice_data.is_sticky || choices[i].num_visited == 0) && (
        choices[i].choice_data.is_fallback == keep_only_fallback);
        checked.push(keep_all);
        i = i + 1;
    }
    Ok(checked)
}

/// A copy of a surfaced choice holding the same text, tags and index.
pub fn clone_choice(c: &Choice) -> (r: Choice)
    ensures
        r.text@ == c.text@,
        r.tags@ == c.tags@,
        r.index == c.index,
{
    Choice { text: c.text.clone(), tags: clone_strings(&c.tags), index: c.index }
}

/// Every authored choice is paired, in order, with its filter flag; the
/// surfaced choice carries the trimmed selection text, the selection text's
/// tags, and the authored index.
pub open spec fn zipped_matches(
    v: Seq<(bool, Choice)>,
    choices: Seq<ChoiceInfo>,
    fallback: bool,
    current: Address,
    knots: Knots,
) -> bool {
    &&& v.len() == choices.len()
    &&& forall|i: int|
        0 <= i < choices.len() ==> (#[trigger] v[i].0 == choice_keep(
            choices[i],
            fallback,
            current,
            knots,
        ) && v[i].1.index == i && v[i].1.text@ == trim_spec(
            choices[i].choice_data.selection_text.text@,
        ) && v[i].1.tags@ == choices[i].choice_data.selection_text.tags@)
}

/// The filtered list holds, in order, exactly the kept choices: each carries
/// its authored index, its trimmed selection text and that text's tags.
pub open spec fn presented_matches(
    v: Seq<Choice>,
    choices: Seq<ChoiceInfo>,
    fallback: bool,
    current: Address,
    knots: Knots,
) -> bool {
    let ks = kept_indices(choices, fallback, current, knots);
    &&& v.len() == ks.len()
    &&& forall|j: int|
        0 <= j < ks.len() ==> (#[trigger] v[j].index == ks[j] && v[j].text@ == trim_spec(
            choices[ks[j]].choice_data.selection_text.text@,
        ) && v[j].tags@ == choices[ks[j]].choice_data.selection_text.tags@)
}

/// Pair every authored choice, in order, with whether the filter keeps it.
/// Each surfaced choice carries its trimmed selection text, the selection
/// text's tags, and its authored index.
pub fn zip_choices_with_filter_values(
    choices: &Vec<ChoiceInfo>,
    current_address: &Address,
    knots: &Knots,
    fallback: bool,
) -> (r: Result<Vec<(bool, Choice)>, InklingError>)
    ensures
        choices_resolvable(choices@, *current_address, *knots) ==> (r matches Ok(v)
            && zipped_matches(v@, choices@, fallback, *current_address, *knots)),
        !choices_resolvable(choices@, *current_address, *knots) ==> (r matches Err(
            InklingError::InvalidAddress { .. },
        )),
{
    let checked = match check_choices_for_conditions(choices, current_address, knots, fallback) {
        Ok(v) => {
            proof {
                assert(choices_resolvable(choices@, *current_address, *knots));
            }
            v
        },
        Err(e) => {
            return Err(e);
        },
    };
    let mut out: Vec<(bool, Choice)> = Vec::new();
    let mut i: usize = 0;
    while i < choices.len()
        invariant
            choices@.len() == checked@.len(),
            forall|j: int|
                0 <= j < choices@.len() ==> checked@[j] == choice_keep(
                    choices@[j],
                    fallback,
                    *current_address,
                    *knots,
                ),
            i <= choices@.len(),
            out@.len() == i,
            forall|j: int|
                0 <= j < i ==> (#[trigger] out@[j].0 == choice_keep(
                    choices@[j],
                    fallback,
                    *current_address,
                    *knots,
                ) && out@[j].1.index == j && out@[j].1.text@ == trim_spec(
                    choices@[j].choice_data.selection_text.text@,
                ) && out@[j].1.tags@ == choices@[j].choice_data.selection_text.tags@),
        decreases choices@.len() - i,
    {
        let sel = &choices[i].choice_data.selection_text;
        let choice = Choice {
            text: trim_str(sel.text.as_str()),
            tags: clone_strings(&sel.tags),
            index: i,
        };
        out.push((checked[i], choice));
        i = i + 1;
    }
    proof {
        assert(zipped_matches(out@, choices@, fallback, *current_address, *knots));
    }
    Ok(out)
}

/// The choices the filter keeps, each carrying its authored index.
fn get_available_choices(
    choices: &Vec<ChoiceInfo>,
    current_address: &Address,
    knots: &Knots,
    fallback: bool,
) -> (r: Result<Vec<Choice>, InklingError>)
    ensures
        choices_resolvable(choices@, *current_address, *knots) ==> (r matches Ok(v)
            && presented_matches(v@, choices@, fallback, *current_address, *knots)),
        !choices_resolvable(choices@, *current_address, *knots) ==> (r matches Err(
            InklingError::InvalidAddress { .. },
        )),
{
    let zipped = match zip_choices_with_filter_values(choices, current_address, knots, fallback) {
        Ok(v) => {
            proof {
                assert(choices_resolvable(choices@, *current_address, *knots));
            }
            v
        },
        Err(e) => {
            return Err(e);
        },
    };
    let mut out: Vec<Choice> = Vec::new();
    let mut i: usize = 0;
    proof {
        assert(choices@.subrange(0, 0) =~= Seq::<ChoiceInfo>::empty());
        assert(presented_matches(
            out@,
            choices@.subrange(0, 0),
            fallback,
            *current_address,
            *knots,
        ));
    }
    while i < zipped.len()
        invariant
            zipped@.len() == choices@.len(),
            zipped_matches(zipped@, choices@, fallback, *current_address, *knots),
            i <= choices@.len(),
            presented_matches(
                out@,
                choices@.subrange(0, i as int),
                fallback,
                *current_address,
                *knots,
            ),
        decreases zipped@.len() - i,
    {
        let ghost pre = choices@.subrange(0, i as int);
        let ghost post = choices@.subrange(0, i as int + 1);
        let ghost ks_pre = kept_indices(pre, fallback, *current_address, *knots);
        let ghost ks_post = kept_indices(post, fallback, *current_address, *knots);
        proof {
            assert(post.drop_last() =~= pre);
            assert(post.last() == choices@[i as int]);
            lemma_kept_indices(pre, fallback, *current_address, *knots);
            assert(zipped@[i as int].0 == choice_keep(
                choices@[i as int],
                fallback,
                *current_address,
                *knots,
            ));
        }
        let (keep, choice) = &zipped[i];
        if *keep {
            out.push(clone_choice(choice));
            proof {
                assert(ks_post =~= ks_pre.push(i as int));
                assert forall|j: int|
                    0 <= j < ks_post.len() implies (#[trigger] out@[j].index == ks_post[j]
                    && out@[j].text@ == trim_spec(
                    post[ks_post[j]].choice_data.selection_text.text@,
                ) && out@[j].tags@ == post[ks_post[j]].choice_data.selection_text.tags@) by {
                    if j < ks_post.len() - 1 {
                        assert(ks_post[j] == ks_pre[j]);
                        assert(post[ks_pre[j]] == choices@[ks_pre[j]]);
                        assert(pre[ks_pre[j]] == choices@[ks_pre[j]]);
                    } else {
                        assert(ks_post[j] == i as int);
                        assert(out@[j] == out@.last());
                    }
                }
                assert forall|j: int|
                    0 <= j < ks_post.len() implies post[ks_post[j]] == choices@[ks_post[j]] by {
                    lemma_kept_indices(post, fallback, *current_address, *knots);
                }
                assert(presented_matches(out@, post, fallback, *current_address, *knots));
            }
        } else {
            proof {
                assert(ks_post =~= ks_pre);
                assert forall|j: int|
                    0 <= j < ks_pre.len() implies (pre[ks_pre[j]] == choices@[ks_pre[j]]
                    && post[ks_pre[j]] == choices@[ks_pre[j]]) by {}
                assert(presented_matches(out@, post, fallback, *current_address, *knots));
            }
        }
        i = i + 1;
    }
    proof {
        assert(choices@.subrange(0, choices@.len() as int) =~= choices@);
    }
    Ok(out)
}

/// The choices to show the user at a branching point: those whose conditions
/// hold, that are sticky or not yet taken, and that are not fallbacks.  Each
/// carries its authored index.
pub fn prepare_choices_for_user(
    choices: &Vec<ChoiceInfo>,
    current_address: &Address,
    knots: &Knots,
) -> (r: Result<Vec<Choice>, InklingError>)
    ensures
        choices_resolvable(choices@, *current_address, *knots) ==> (r matches Ok(v)
            && presented_matches(v@, choices@, false, *current_address, *knots)),
        !choices_resolvable(choices@, *current_address, *knots) ==> (r matches Err(
            InklingError::InvalidAddress { .. },
        )),
{
    get_available_choices(choices, current_address, knots, false)
}

/// The fallback choices at a branching point, filtered like ordinary
/// choices; the engine auto-selects the first when nothing is presentable.
pub fn get_fallback_choices(
    choices: &Vec<ChoiceInfo>,
    current_address: &Address,
    knots: &Knots,
) -> (r: Result<Vec<Choice>, InklingError>)
    ensures
        choices_resolvable(choices@, *current_address, *knots) ==> (r matches Ok(v)
            && presented_matches(v@, choices@, true, *current_address, *knots)),
        !choices_resolvable(choices@, *current_address, *knots) ==> (r matches Err(
            InklingError::InvalidAddress { .. },
        )),
{
    get_available_choices(choices, current_address, knots, true)
}

/// Enrich an `InvalidChoice` stub with the choice that was made and with the
/// full authored list, each entry marked with whether it was shown.  Any
/// other error is returned unchanged.
pub fn fill_in_invalid_error(
    error_stub: InklingError,
    made_choice: &Choice,
    current_address: &Address,
    knots: &Knots,
) -> (r: InklingError)
    ensures
        error_stub matches InklingError::InvalidChoice {
            index: idx,
            choice: _,
            internal_choices: ic,
            presented_choices: _,
        } ==> (r matches InklingError::InvalidChoice {
            index: idx2,
            choice: ch2,
            internal_choices: ic2,
            presented_choices: pc2,
        } && idx2 == idx && ic2 == ic && (ch2 matches Some(mc) && mc.text@ == made_choice.text@
            && mc.tags@ == made_choice.tags@ && mc.index == made_choice.index) && (if
        choices_resolvable(ic@, *current_address, *knots) {
            zipped_matches(pc2@, ic@, false, *current_address, *knots)
        } else {
            pc2@.len() == 0
        })),
        !(error_stub matches InklingError::InvalidChoice { .. }) ==> r == error_stub,
{
    match error_stub {
        InklingError::InvalidChoice { index, choice: _, internal_choices, presented_choices: _ } => {
            let presented_choices = match zip_choices_with_filter_values(
                &internal_choices,
                current_address,
                knots,
                false,
            ) {
                Ok(v) => {
                    proof {
                        assert(choices_resolvable(internal_choices@, *current_address, *knots));
                    }
                    v
                },
                Err(_) => {
                    proof {
                        assert(!choices_resolvable(internal_choices@, *current_address, *knots));
                    }
                    Vec::new()
                },
            };
            InklingError::InvalidChoice {
                index,
                choice: Some(clone_choice(made_choice)),
                internal_choices,
                presented_choices,
            }
        },
        other => other,
    }
}

} // verus!
