//! The library's laws: properties that hold of every input, stated once and
//! proved from the contracts of the functions they speak about.

use vstd::prelude::*;
use crate::address::Address;
use crate::follow::ChoiceInfo;
use crate::knot::{name_outcome, root_name, stitch_lines_match, Knot, NameOutcome};
use crate::line::InternalLine;
use crate::parse::{
    divide_spec, find_marker_idx, is_marker_line, kept_lines, knot_group_name, knot_group_rest,
    knot_matches, knot_sgroups, lemma_find_marker_idx, stitch_group_lines, stitch_group_name,
    stitch_marker_seq, story_groups, story_matches,
};
use crate::process::{
    assembled_text, choice_keep, conditions_outcome, glued_at, kept_indices, lemma_kept_indices,
    line_is_kept, presented_matches, surviving,
};
use crate::story::{Choice, Knots};
use crate::text::{
    is_blank, is_space, lemma_trim_end_idx, lemma_trim_props, lemma_trim_start_idx,
    split_lines_spec, starts_with, trim_spec, trim_start_spec,
};

verus! {

// ---------------------------------------------------------------------------
// Facts about the surviving lines of a buffer
// ---------------------------------------------------------------------------
/// Every line that survives the blank filter is non-blank.
pub proof fn lemma_surviving_kept(buf: Seq<InternalLine>)
    ensures
        forall|k: int| 0 <= k < surviving(buf).len() ==> line_is_kept(#[trigger] surviving(buf)[k]),
    decreases buf.len(),
{
    if buf.len() > 0 {
        let t = buf.drop_first();
        lemma_surviving_kept(t);
        assert forall|k: int|
            0 <= k < surviving(buf).len() implies line_is_kept(#[trigger] surviving(buf)[k]) by {
            if line_is_kept(buf[0]) {
                if k > 0 {
                    assert(surviving(buf)[k] == surviving(t)[k - 1]);
                }
            } else {
                assert(surviving(buf)[k] == surviving(t)[k]);
            }
        }
    }
}

/// A buffer of non-blank lines survives the filter unchanged.
pub proof fn lemma_surviving_identity(buf: Seq<InternalLine>)
    requires
        forall|k: int| 0 <= k < buf.len() ==> line_is_kept(#[trigger] buf[k]),
    ensures
        surviving(buf) == buf,
    decreases buf.len(),
{
    if buf.len() > 0 {
        let t = buf.drop_first();
        assert forall|k: int| 0 <= k < t.len() implies line_is_kept(#[trigger] t[k]) by {
            assert(t[k] == buf[k + 1]);
        }
        lemma_surviving_identity(t);
        assert(surviving(buf) =~= buf);
    } else {
        assert(surviving(buf) =~= buf);
    }
}

/// A sequence with no whitespace at either end trims to itself, also after a
/// single whitespace character is appended.
pub proof fn lemma_trim_clean(t: Seq<char>, c: char)
    requires
        t.len() > 0 ==> !is_space(t[0]),
        t.len() > 0 ==> !is_space(t[t.len() - 1]),
        is_space(c),
    ensures
        trim_spec(t) == t,
        trim_spec(t.push(c)) == t,
{
    if t.len() == 0 {
        lemma_trim_start_idx(t, 0);
        lemma_trim_end_idx(t, 0);
        assert(trim_spec(t) =~= t);
        let p = t.push(c);
        lemma_trim_start_idx(p, 1);
        assert(trim_start_spec(p) =~= Seq::<char>::empty());
        lemma_trim_end_idx(trim_start_spec(p), 0);
        assert(trim_spec(p) =~= t);
    } else {
        lemma_trim_start_idx(t, 0);
        assert(trim_start_spec(t) =~= t);
        lemma_trim_end_idx(t, t.len() as int);
        assert(trim_spec(t) =~= t);
        let p = t.push(c);
        lemma_trim_start_idx(p, 0);
        assert(trim_start_spec(p) =~= p);
        lemma_trim_end_idx(p, t.len() as int);
        assert(trim_spec(p) =~= t);
    }
}

// ---------------------------------------------------------------------------
// Glue exclusion: a finished line ends with a newline exactly when its seam
// with the next surviving line is not glued.
// ---------------------------------------------------------------------------
pub proof fn glue_exclusion(buf: Seq<InternalLine>, i: int)
    requires
        0 <= i,
        i + 1 < surviving(buf).len(),
    ensures
        ({
            let s = surviving(buf);
            let t = assembled_text(s, i);
            (t.len() > 0 && t[t.len() - 1] == '\n') <==> !(s[i].glue_end || s[i + 1].glue_begin)
        }),
{
    let s = surviving(buf);
    lemma_surviving_kept(buf);
    lemma_trim_props(s[i].text@);
    let base = trim_spec(s[i].text@);
    assert(base.len() > 0);
    assert(is_space('\n'));
    assert(is_space(' '));
    if s[i].glue_end || s[i + 1].glue_begin {
        // glued: the text is the trimmed line, with at most one space kept
        assert(glued_at(s, i));
        let t = assembled_text(s, i);
        assert(t.len() > 0);
        assert(!is_space(t[t.len() - 1]) || t[t.len() - 1] == ' ');
    }
}

// ---------------------------------------------------------------------------
// Single trailing newline: the last finished line ends with exactly one
// newline character.
// ---------------------------------------------------------------------------
pub proof fn single_trailing_newline(buf: Seq<InternalLine>)
    requires
        surviving(buf).len() > 0,
    ensures
        ({
            let s = surviving(buf);
            let t = assembled_text(s, s.len() - 1);
            t.len() >= 1 && t[t.len() - 1] == '\n' && (t.len() >= 2 ==> t[t.len() - 2] != '\n')
        }),
{
    let s = surviving(buf);
    let i = s.len() - 1;
    lemma_surviving_kept(buf);
    lemma_trim_props(s[i].text@);
    assert(is_space('\n'));
}

// ---------------------------------------------------------------------------
// Sticky filter: a non-sticky, non-fallback choice is presentable exactly
// when it has never been taken and its conditions hold.
// ---------------------------------------------------------------------------
pub proof fn sticky_filter(ci: ChoiceInfo, current: Address, knots: Knots)
    requires
        !ci.choice_data.is_sticky,
        !ci.choice_data.is_fallback,
    ensures
        choice_keep(ci, false, current, knots) <==> (ci.num_visited == 0 && conditions_outcome(
            ci.choice_data.conditions@,
            current,
            knots,
        ) == Some(true)),
{
}

// ---------------------------------------------------------------------------
// Choice-index stability: every presented choice carries its authored index,
// the presented list keeps authored order, and it holds exactly the choices
// the filter keeps.
// ---------------------------------------------------------------------------
pub proof fn choice_index_stability(
    v: Seq<Choice>,
    choices: Seq<ChoiceInfo>,
    fallback: bool,
    current: Address,
    knots: Knots,
)
    requires
        presented_matches(v, choices, fallback, current, knots),
    ensures
        forall|j: int|
            0 <= j < v.len() ==> (0 <= #[trigger] v[j].index < choices.len() && choice_keep(
                choices[v[j].index as int],
                fallback,
                current,
                knots,
            ) && v[j].text@ == trim_spec(
                choices[v[j].index as int].choice_data.selection_text.text@,
            )),
        forall|j1: int, j2: int| 0 <= j1 < j2 < v.len() ==> v[j1].index < v[j2].index,
        forall|i: int|
            0 <= i < choices.len() && choice_keep(choices[i], fallback, current, knots) ==> exists|
                j: int,
            | 0 <= j < v.len() && #[trigger] v[j].index == i,
{
    let ks = kept_indices(choices, fallback, current, knots);
    lemma_kept_indices(choices, fallback, current, knots);
    assert forall|i: int|
        0 <= i < choices.len() && choice_keep(choices[i], fallback, current, knots) implies exists|
        j: int,
    | 0 <= j < v.len() && #[trigger] v[j].index == i by {
        assert(ks.contains(i));
        let j = choose|j: int| 0 <= j < ks.len() && ks[j] == i;
        assert(v[j].index == i);
    }
}

// ---------------------------------------------------------------------------
// Parse round-trip of names: a knot declaration line in the kept source
// lines yields exactly one knot of that name in the parsed graph.
// ---------------------------------------------------------------------------
/// Every marker line of a divided set stands at the head of one of the
/// groups.
pub proof fn lemma_divide_marker_heads(lines: Seq<Seq<char>>, marker: Seq<char>, p: int)
    requires
        0 <= p < lines.len(),
        is_marker_line(lines[p], marker),
    ensures
        exists|g: int|
            0 <= g < divide_spec(lines, marker).len() && #[trigger] divide_spec(lines, marker)[g].len()
                > 0 && divide_spec(lines, marker)[g][0] == lines[p],
    decreases lines.len(),
{
    let d = divide_spec(lines, marker);
    let sub1 = lines.subrange(1, lines.len() as int);
    lemma_find_marker_props(sub1, marker);
    let j = 1 + find_marker_idx(sub1, marker) as int;
    if j >= lines.len() {
        // a single group: p must be 0, since positions 1.. hold no marker
        if p > 0 {
            assert(sub1[p - 1] == lines[p]);
            assert(false);
        }
        assert(d[0][0] == lines[p]);
    } else {
        if p == 0 {
            assert(d[0] == lines.subrange(0, j));
            assert(d[0][0] == lines[0]);
        } else if p < j {
            assert(sub1[p - 1] == lines[p]);
            assert(false);
        } else {
            let rest = lines.subrange(j, lines.len() as int);
            assert(rest[p - j] == lines[p]);
            lemma_divide_marker_heads(rest, marker, p - j);
            let g = choose|g: int|
                0 <= g < divide_spec(rest, marker).len() && #[trigger] divide_spec(rest, marker)[g].len()
                    > 0 && divide_spec(rest, marker)[g][0] == rest[p - j];
            assert(d[g + 1] == divide_spec(rest, marker)[g]);
        }
    }
}

/// Bounds and defining properties of `find_marker_idx`.
pub proof fn lemma_find_marker_props(lines: Seq<Seq<char>>, marker: Seq<char>)
    ensures
        find_marker_idx(lines, marker) <= lines.len(),
        forall|j: int|
            0 <= j < find_marker_idx(lines, marker) ==> !is_marker_line(#[trigger] lines[j], marker),
        find_marker_idx(lines, marker) < lines.len() ==> is_marker_line(
            lines[find_marker_idx(lines, marker) as int],
            marker,
        ),
    decreases lines.len(),
{
    if lines.len() == 0 {
    } else if is_marker_line(lines[0], marker) {
    } else {
        let t = lines.drop_first();
        lemma_find_marker_props(t, marker);
        assert forall|j: int|
            0 <= j < find_marker_idx(lines, marker) implies !is_marker_line(
            #[trigger] lines[j],
            marker,
        ) by {
            if j >= 1 {
                assert(t[j - 1] == lines[j]);
            }
        }
        if find_marker_idx(lines, marker) < lines.len() {
            assert(t[find_marker_idx(t, marker) as int] == lines[1 + find_marker_idx(t, marker) as int]);
        }
    }
}

/// A well-formed knot declaration among the kept source lines puts exactly
/// one knot of that name in the parsed graph: the name is present, and key
/// distinctness makes it unique.
#[verifier::rlimit(50)]
pub proof fn parse_round_trip_of_names(
    root: Seq<char>,
    knots: Knots,
    content: Seq<char>,
    p: int,
    k: Seq<char>,
)
    requires
        story_matches(root, knots, content),
        0 <= p < kept_lines(split_lines_spec(content)).len(),
        name_outcome(kept_lines(split_lines_spec(content))[p], true) == NameOutcome::Name(k),
    ensures
        knots.spec_contains(k),
        knots.wf(),
{
    let lines = kept_lines(split_lines_spec(content));
    let line = lines[p];
    let marker = seq!['=', '='];
    // a line with a read knot name is a knot-marker line
    let t = trim_start_spec(line);
    assert(t.len() >= 2 && t[0] == '=' && t[1] == '=');
    assert forall|q: int| 0 <= q < marker.len() implies t[q] == marker[q] by {}
    assert(starts_with(t, marker));
    assert(is_marker_line(line, marker));
    lemma_divide_marker_heads(lines, marker, p);
    let gs = story_groups(content);
    let g = choose|g: int|
        0 <= g < gs.len() && #[trigger] gs[g].len() > 0 && gs[g][0] == line;
    assert(knot_group_name(gs[g], g) == k);
}

// ---------------------------------------------------------------------------
// Default stitch rule: a knot whose first content line is plain text gets
// the reserved root name as its default stitch; one whose first content line
// declares a stitch `S` gets `S`.
// ---------------------------------------------------------------------------
pub proof fn default_stitch_rule(knot: Knot, group: Seq<Seq<char>>, index: int)
    requires
        knot_matches(knot, group, index),
        knot_group_rest(group).len() > 0,
    ensures
        !is_marker_line(knot_group_rest(group)[0], stitch_marker_seq()) ==> knot.default_stitch@
            == root_name(),
        name_outcome(knot_group_rest(group)[0], false) matches NameOutcome::Name(s)
            ==> knot.default_stitch@ == s,
{
    let rest = knot_group_rest(group);
    let sgs = knot_sgroups(group);
    let sub1 = rest.subrange(1, rest.len() as int);
    let j = 1 + find_marker_idx(sub1, stitch_marker_seq()) as int;
    lemma_find_marker_props(sub1, stitch_marker_seq());
    if j >= rest.len() {
        assert(sgs[0] == rest);
    } else {
        assert(sgs[0] == rest.subrange(0, j));
    }
    assert(sgs[0][0] == rest[0]);
    // a line that carries no stitch marker parses to no name
    if !is_marker_line(rest[0], stitch_marker_seq()) {
        let t = trim_start_spec(rest[0]);
        if t.len() >= 1 && t[0] == '=' {
            assert forall|q: int| 0 <= q < stitch_marker_seq().len() implies t[q]
                == stitch_marker_seq()[q] by {}
            assert(starts_with(t, stitch_marker_seq()));
            assert(false);
        }
        assert(name_outcome(rest[0], false) is NoName);
        assert(stitch_group_name(sgs[0]) == root_name());
    }
}

// ---------------------------------------------------------------------------
// Serialized knot form: a group of a knot header, one stitch header and
// plain body lines parses to a knot whose default stitch is the declared
// one and whose content is exactly the body.
// ---------------------------------------------------------------------------
pub proof fn knot_serialized_form(
    knot: Knot,
    header: Seq<char>,
    stitch_header: Seq<char>,
    body: Seq<Seq<char>>,
    stitch_name: Seq<char>,
    index: int,
)
    requires
        knot_matches(knot, seq![header, stitch_header] + body, index),
        name_outcome(header, true) is Name,
        name_outcome(stitch_header, false) == NameOutcome::Name(stitch_name),
        forall|l: int| 0 <= l < body.len() ==> !is_marker_line(#[trigger] body[l], stitch_marker_seq()),
    ensures
        knot.default_stitch@ == stitch_name,
        knot.stitches.spec_contains(stitch_name),
        stitch_lines_match(knot.stitches.spec_get(stitch_name), body),
{
    let group = seq![header, stitch_header] + body;
    assert(group[0] == header);
    let rest = knot_group_rest(group);
    assert(rest =~= seq![stitch_header] + body);
    assert(rest[0] == stitch_header);
    let sub1 = rest.subrange(1, rest.len() as int);
    assert forall|l: int| 0 <= l < sub1.len() implies !is_marker_line(
        #[trigger] sub1[l],
        stitch_marker_seq(),
    ) by {
        assert(sub1[l] == body[l]);
    }
    lemma_find_marker_idx(sub1, stitch_marker_seq(), sub1.len() as int);
    let sgs = knot_sgroups(group);
    assert(sgs =~= seq![rest]);
    assert(stitch_group_name(sgs[0]) == stitch_name);
    assert(stitch_group_lines(sgs[0]) =~= body);
    // the single stitch group is trivially the last of its name
    assert(knot.stitches.spec_contains(stitch_name));
    assert(stitch_lines_match(knot.stitches.spec_get(stitch_name), body));
}

// ---------------------------------------------------------------------------
// Idempotence of text assembly: running the assembler on its own output
// changes nothing.
// ---------------------------------------------------------------------------
/// A buffer whose lines carry already-assembled text, with the original glue
/// flags, survives filtering whole and assembles to the same text.
pub proof fn assembler_idempotent(buf: Seq<InternalLine>, rebuilt: Seq<InternalLine>)
    requires
        rebuilt.len() == surviving(buf).len(),
        forall|i: int|
            0 <= i < rebuilt.len() ==> (#[trigger] rebuilt[i].text@ == assembled_text(
                surviving(buf),
                i,
            ) && rebuilt[i].glue_begin == surviving(buf)[i].glue_begin && rebuilt[i].glue_end
                == surviving(buf)[i].glue_end),
    ensures
        surviving(rebuilt) == rebuilt,
        forall|i: int|
            0 <= i < rebuilt.len() ==> #[trigger] assembled_text(rebuilt, i) == rebuilt[i].text@,
{
    let s = surviving(buf);
    lemma_surviving_kept(buf);
    assert(is_space(' '));
    assert(is_space('\n'));
    // every rebuilt line is non-blank: its first character is the first
    // character of a non-empty trimmed text
    assert forall|i: int| 0 <= i < rebuilt.len() implies line_is_kept(#[trigger] rebuilt[i]) by {
        lemma_trim_props(s[i].text@);
        let base = trim_spec(s[i].text@);
        assert(rebuilt[i].text@[0] == base[0]);
        assert(!is_blank(rebuilt[i].text@));
    }
    lemma_surviving_identity(rebuilt);
    assert forall|i: int|
        0 <= i < rebuilt.len() implies #[trigger] assembled_text(rebuilt, i) == rebuilt[i].text@ by {
        lemma_trim_props(s[i].text@);
        let base = trim_spec(s[i].text@);
        let glued = glued_at(s, i);
        assert(glued_at(rebuilt, i) == glued);
        if glued {
            lemma_trim_props(s[i + 1].text@);
            let next_base = trim_spec(s[i + 1].text@);
            assert(rebuilt[i + 1].text@[0] == next_base[0]);
            assert(!is_space(rebuilt[i + 1].text@[0]));
            if rebuilt[i].text@ == base.push(' ') {
                // the kept space survives a second pass
                lemma_trim_clean(base, ' ');
                assert(rebuilt[i].text@[rebuilt[i].text@.len() - 1] == ' ');
            } else {
                assert(rebuilt[i].text@ == base);
                lemma_trim_clean(base, ' ');
                assert(rebuilt[i].text@[rebuilt[i].text@.len() - 1] == base[base.len() - 1]);
                assert(rebuilt[i].text@[rebuilt[i].text@.len() - 1] != ' ');
            }
        } else {
            assert(rebuilt[i].text@ == base.push('\n'));
            lemma_trim_clean(base, '\n');
        }
    }
}

} // verus!
