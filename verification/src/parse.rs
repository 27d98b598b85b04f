//! The structural parser: grouping the lines of a story source into knots
//! and stitches.
//!
//! Comment and blank lines are dropped first.  The remaining lines are
//! divided into knot groups at lines whose trimmed prefix is `==`, each knot
//! group into stitch groups at lines whose trimmed prefix is `=`, and each
//! stitch group's name line is read off its front.  Lines before the first
//! marker form an implicit leading group, whose knot (or stitch) carries the
//! reserved root name.

use vstd::prelude::*;
use vstd::string::*;
use crate::error::{KnotError, KnotNameError, ParseError};
use crate::knot::{
    name_outcome, read_knot_name, read_stitch_name, root_name, stitch_lines_match, Knot,
    NameOutcome, Stitch, KNOT_MARKER, ROOT_KNOT_NAME, STITCH_MARKER,
};
use crate::namemap::NameMap;
use crate::story::Knots;
use crate::text::{
    is_blank, lemma_trim_start_idx, skip_spaces_in, split_content_lines, split_lines_spec,
    starts_with, str_chars, str_is_blank, trim_start_spec,
};

verus! {

// ---------------------------------------------------------------------------
// Pre-filtering of comment and blank lines
// ---------------------------------------------------------------------------
/// A line dropped as a comment: it begins (untrimmed) with `//`.
pub open spec fn is_comment_line(l: Seq<char>) -> bool {
    l.len() >= 2 && l[0] == '/' && l[1] == '/'
}

/// A line dropped as a todo comment: it begins (untrimmed) with `TODO:`.
pub open spec fn is_todo_line(l: Seq<char>) -> bool {
    l.len() >= 5 && l[0] == 'T' && l[1] == 'O' && l[2] == 'D' && l[3] == 'O' && l[4] == ':'
}

/// A line the parser keeps: no comment or todo marker, and not blank.
pub open spec fn line_kept(l: Seq<char>) -> bool {
    !is_comment_line(l) && !is_todo_line(l) && !is_blank(l)
}

/// The lines that survive pre-filtering, in order.
pub open spec fn kept_lines(lines: Seq<Seq<char>>) -> Seq<Seq<char>>
    decreases lines.len(),
{
    if lines.len() == 0 {
        Seq::empty()
    } else {
        (if line_kept(lines[0]) {
            seq![lines[0]]
        } else {
            Seq::empty()
        }) + kept_lines(lines.drop_first())
    }
}

/// The positions (0-based) of the todo-comment lines, in order.
pub open spec fn todo_indices(lines: Seq<Seq<char>>) -> Seq<int>
    decreases lines.len(),
{
    if lines.len() == 0 {
        Seq::empty()
    } else {
        todo_indices(lines.drop_last()) + (if is_todo_line(lines.last()) {
            seq![lines.len() - 1]
        } else {
            Seq::empty()
        })
    }
}

fn line_is_comment(line: &str) -> (b: bool)
    ensures
        b == is_comment_line(line@),
{
    let n: usize = line.unicode_len();
    n >= 2 && line.get_char(0) == '/' && line.get_char(1) == '/'
}

fn line_is_todo(line: &str) -> (b: bool)
    ensures
        b == is_todo_line(line@),
{
    let n: usize = line.unicode_len();
    n >= 5 && line.get_char(0) == 'T' && line.get_char(1) == 'O' && line.get_char(2) == 'D'
        && line.get_char(3) == 'O' && line.get_char(4) == ':'
}

/// Filter comment, todo-comment and blank lines from a set.
pub fn remove_empty_and_comment_lines(content: Vec<&str>) -> (r: Vec<&str>)
    ensures
        r.deep_view() == kept_lines(content.deep_view()),
{
    let ghost all = content.deep_view();
    let mut r: Vec<&str> = Vec::new();
    let mut i: usize = 0;
    proof {
        assert(all.subrange(0, all.len() as int) =~= all);
        assert(r.deep_view() + kept_lines(all) =~= kept_lines(all));
    }
    while i < content.len()
        invariant
            all == content.deep_view(),
            i <= content@.len(),
            content@.len() == all.len(),
            kept_lines(all) == r.deep_view() + kept_lines(all.subrange(i as int, all.len() as int)),
        decreases content@.len() - i,
    {
        let ghost suffix = all.subrange(i as int, all.len() as int);
        proof {
            assert(suffix[0] == all[i as int]);
            assert(all[i as int] == content@[i as int]@);
            assert(suffix.drop_first() =~= all.subrange(i as int + 1, all.len() as int));
        }
        let line = content[i];
        if !(line_is_comment(line) || line_is_todo(line)) && !str_is_blank(line) {
            r.push(line);
            proof {
                assert(r.deep_view() =~= r.deep_view().subrange(0, r.deep_view().len() - 1) + seq![
                    line@,
                ]);
                assert(kept_lines(all) =~= r.deep_view() + kept_lines(
                    all.subrange(i as int + 1, all.len() as int),
                ));
            }
        } else {
            proof {
                assert(kept_lines(suffix) =~= kept_lines(suffix.drop_first()));
            }
        }
        i = i + 1;
    }
    proof {
        assert(all.subrange(all.len() as int, all.len() as int).len() == 0);
        assert(r.deep_view() =~= kept_lines(all));
    }
    r
}

/// The todo-comment lines of a set, each with its 1-based line number, for a
/// caller to echo to its diagnostic sink.
pub fn todo_comment_lines<'a>(content: &Vec<&'a str>) -> (r: Vec<(usize, &'a str)>)
    ensures
        ({
            let ts = todo_indices(content.deep_view());
            r@.len() == ts.len() && forall|j: int|
                0 <= j < ts.len() ==> (#[trigger] r@[j].0 == ts[j] + 1 && r@[j].1@
                    == content.deep_view()[ts[j]])
        }),
{
    let ghost all = content.deep_view();
    let mut r: Vec<(usize, &'a str)> = Vec::new();
    let mut i: usize = 0;
    proof {
        assert(all.subrange(0, 0) =~= Seq::<Seq<char>>::empty());
    }
    while i < content.len()
        invariant
            all == content.deep_view(),
            i <= content@.len(),
            content@.len() == all.len(),
            ({
                let ts = todo_indices(all.subrange(0, i as int));
                r@.len() == ts.len() && forall|j: int|
                    0 <= j < ts.len() ==> (#[trigger] r@[j].0 == ts[j] + 1 && 0 <= ts[j] < i
                        && r@[j].1@ == all[ts[j]])
            }),
        decreases content@.len() - i,
    {
        let ghost pre = all.subrange(0, i as int);
        let ghost post = all.subrange(0, i as int + 1);
        proof {
            assert(post.drop_last() =~= pre);
            assert(post.last() == all[i as int]);
            assert(all[i as int] == content@[i as int]@);
        }
        let line = content[i];
        if line_is_todo(line) {
            r.push((i + 1, line));
            proof {
                assert(todo_indices(post) =~= todo_indices(pre).push(i as int));
            }
        } else {
            proof {
                assert(todo_indices(post) =~= todo_indices(pre));
            }
        }
        i = i + 1;
    }
    proof {
        assert(all.subrange(0, all.len() as int) =~= all);
    }
    r
}

// ---------------------------------------------------------------------------
// Division into marker groups
// ---------------------------------------------------------------------------
/// Whether a line opens a group: its trimmed prefix begins with `marker`.
pub open spec fn is_marker_line(l: Seq<char>, marker: Seq<char>) -> bool {
    starts_with(trim_start_spec(l), marker)
}

/// First position in `lines` holding a marker line; `lines.len()` if none.
pub open spec fn find_marker_idx(lines: Seq<Seq<char>>, marker: Seq<char>) -> nat
    decreases lines.len(),
{
    if lines.len() == 0 {
        0
    } else if is_marker_line(lines[0], marker) {
        0
    } else {
        1 + find_marker_idx(lines.drop_first(), marker)
    }
}

pub proof fn lemma_find_marker_idx(lines: Seq<Seq<char>>, marker: Seq<char>, n: int)
    requires
        0 <= n <= lines.len(),
        forall|j: int| 0 <= j < n ==> !is_marker_line(lines[j], marker),
        n < lines.len() ==> is_marker_line(lines[n], marker),
    ensures
        find_marker_idx(lines, marker) == n,
    decreases lines.len(),
{
    if lines.len() == 0 {
    } else if is_marker_line(lines[0], marker) {
        assert(n == 0);
    } else {
        assert(n >= 1);
        let t = lines.drop_first();
        assert forall|j: int| 0 <= j < n - 1 implies !is_marker_line(t[j], marker) by {
            assert(t[j] == lines[j + 1]);
        }
        if n - 1 < t.len() {
            assert(t[n - 1] == lines[n]);
        }
        lemma_find_marker_idx(t, marker, n - 1);
    }
}

/// The division of `lines` into groups: lines before the first marker form
/// an implicit leading group, and every marker line opens a group running to
/// the next marker.
pub open spec fn divide_spec(lines: Seq<Seq<char>>, marker: Seq<char>) -> Seq<Seq<Seq<char>>>
    decreases lines.len(),
{
    if lines.len() == 0 {
        Seq::empty()
    } else {
        let j = 1 + find_marker_idx(lines.subrange(1, lines.len() as int), marker) as int;
        if j >= lines.len() {
            seq![lines]
        } else {
            seq![lines.subrange(0, j)] + divide_spec(lines.subrange(j, lines.len() as int), marker)
        }
    }
}

/// Whether the trimmed start of `line` begins with `marker`.
fn line_has_marker(line: &str, marker: &str) -> (b: bool)
    ensures
        b == is_marker_line(line@, marker@),
{
    let v = str_chars(line);
    let n = v.len();
    let a = skip_spaces_in(&v, 0, n);
    proof {
        lemma_trim_start_idx(v@, a as int);
        assert(trim_start_spec(line@) =~= v@.subrange(a as int, n as int));
    }
    let m: usize = marker.unicode_len();
    if n - a < m {
        return false;
    }
    let mut k: usize = 0;
    while k < m
        invariant
            line@ == v@,
            m == marker@.len(),
            a + m <= n == v@.len(),
            k <= m,
            trim_start_spec(line@) == v@.subrange(a as int, n as int),
            forall|j: int| 0 <= j < k ==> v@[a + j] == marker@[j],
        decreases m - k,
    {
        if v[a + k] != marker.get_char(k) {
            proof {
                assert(trim_start_spec(line@)[k as int] == v@[a + k as int]);
            }
            return false;
        }
        k = k + 1;
    }
    proof {
        assert forall|j: int|
            0 <= j < marker@.len() implies trim_start_spec(line@)[j] == marker@[j] by {
            assert(trim_start_spec(line@)[j] == v@[a + j]);
        }
    }
    true
}

/// Split a set of lines into groups opened by marker lines.
pub fn divide_lines_at_marker<'a>(content: Vec<&'a str>, marker: &str) -> (r: Vec<Vec<&'a str>>)
    ensures
        r.deep_view() == divide_spec(content.deep_view(), marker@),
{
    let ghost all = content.deep_view();
    let mut groups: Vec<Vec<&'a str>> = Vec::new();
    let mut p: usize = 0;
    proof {
        assert(all.subrange(0, all.len() as int) =~= all);
        assert(groups.deep_view() + divide_spec(all, marker@) =~= divide_spec(all, marker@));
    }
    while p < content.len()
        invariant
            all == content.deep_view(),
            p <= content@.len(),
            content@.len() == all.len(),
            divide_spec(all, marker@) == groups.deep_view() + divide_spec(
                all.subrange(p as int, all.len() as int),
                marker@,
            ),
        decreases content@.len() - p,
    {
        let ghost suffix = all.subrange(p as int, all.len() as int);
        // scan for the next marker line after p
        let mut q: usize = p + 1;
        while q < content.len() && !line_has_marker(content[q], marker)
            invariant
                all == content.deep_view(),
                content@.len() == all.len(),
                p + 1 <= q <= all.len() || (p == all.len() - 1 && q == all.len()),
                p < all.len(),
                forall|j: int| p < j < q ==> !is_marker_line(all[j], marker@),
            decreases content@.len() - q,
        {
            proof {
                assert(all[q as int] == content@[q as int]@);
            }
            q = q + 1;
        }
        proof {
            if q < all.len() {
                assert(all[q as int] == content@[q as int]@);
                assert(is_marker_line(all[q as int], marker@));
            }
            let sub1 = suffix.subrange(1, suffix.len() as int);
            assert(sub1 =~= all.subrange(p as int + 1, all.len() as int));
            assert forall|j: int| 0 <= j < q - p - 1 implies !is_marker_line(sub1[j], marker@) by {
                assert(sub1[j] == all[p + 1 + j]);
            }
            if q < all.len() {
                assert(sub1[q - p - 1] == all[q as int]);
            }
            lemma_find_marker_idx(sub1, marker@, q - p - 1);
        }
        // the group is content[p..q]
        let mut g: Vec<&'a str> = Vec::new();
        let mut k: usize = p;
        proof {
            assert(g.deep_view() =~= all.subrange(p as int, p as int));
        }
        while k < q
            invariant
                all == content.deep_view(),
                content@.len() == all.len(),
                p <= k <= q <= all.len(),
                g.deep_view() == all.subrange(p as int, k as int),
            decreases q - k,
        {
            let ghost gpre = g.deep_view();
            g.push(content[k]);
            proof {
                assert(all[k as int] == content@[k as int]@);
                assert(g.deep_view() =~= gpre.push(all[k as int]));
                assert(g.deep_view() =~= all.subrange(p as int, k as int + 1));
            }
            k = k + 1;
        }
        let ghost gv = g.deep_view();
        groups.push(g);
        proof {
            assert(groups.deep_view() =~= groups.deep_view().subrange(
                0,
                groups.deep_view().len() - 1,
            ) + seq![gv]);
            // one unfolding of divide_spec on the suffix
            if q < all.len() {
                assert(gv =~= suffix.subrange(0, q - p));
                assert(suffix.subrange(q - p, suffix.len() as int) =~= all.subrange(
                    q as int,
                    all.len() as int,
                ));
                assert(divide_spec(suffix, marker@) == seq![suffix.subrange(0, q - p)]
                    + divide_spec(all.subrange(q as int, all.len() as int), marker@));
            } else {
                assert(gv =~= suffix);
                assert(divide_spec(suffix, marker@) == seq![suffix]);
                assert(all.subrange(q as int, all.len() as int).len() == 0);
                assert(divide_spec(all.subrange(q as int, all.len() as int), marker@)
                    =~= Seq::<Seq<Seq<char>>>::empty());
            }
            assert(divide_spec(all, marker@) =~= groups.deep_view() + divide_spec(
                all.subrange(q as int, all.len() as int),
                marker@,
            ));
        }
        p = q;
    }
    proof {
        assert(divide_spec(all.subrange(p as int, all.len() as int), marker@) =~= Seq::<
            Seq<Seq<char>>,
        >::empty());
        assert(groups.deep_view() =~= divide_spec(all, marker@));
    }
    groups
}

// ---------------------------------------------------------------------------
// Reading names off the front of a group
// ---------------------------------------------------------------------------
/// The reserved root name as a fresh `String`.
fn root_string() -> (s: String)
    ensures
        s@ == root_name(),
{
    let s = ROOT_KNOT_NAME.to_owned();
    proof {
        reveal_strlit("$ROOT$");
        assert(s@ =~= root_name());
    }
    s
}

/// Read the knot name from the first line of a group.
///
/// A read name consumes its line.  A first group (`knot_index == 0`) without
/// a name line is the implicit root knot; any other group must open with a
/// named knot line.
pub fn get_knot_name<'a>(lines: &mut Vec<&'a str>, knot_index: usize) -> (r: Result<
    String,
    KnotError,
>)
    ensures
        old(lines)@.len() == 0 ==> (r matches Err(e) && e == KnotError::Empty && final(lines)@
            == old(lines)@),
        old(lines)@.len() > 0 ==> match name_outcome(old(lines)@[0]@, true) {
            NameOutcome::Name(nm) => r matches Ok(s) && s@ == nm && final(lines)@ == old(
                lines,
            )@.drop_first(),
            NameOutcome::NoName => if knot_index == 0 {
                r matches Ok(s) && s@ == root_name() && final(lines)@ == old(lines)@
            } else {
                r matches Err(KnotError::InvalidName { line: l, kind: k }) && l@ == old(lines)@[0]@
                    && k == KnotNameError::NoNamePresent && final(lines)@ == old(lines)@
            },
            NameOutcome::BadChar(c) => r matches Err(KnotError::InvalidName { line: l, kind: k })
                && l@ == old(lines)@[0]@ && k == KnotNameError::InvalidCharacter(c) && final(lines)@ == old(lines)@,
        },
{
    if lines.len() == 0 {
        return Err(KnotError::Empty);
    }
    match read_knot_name(lines[0]) {
        Ok(name) => {
            let _ = lines.remove(0);
            proof {
                assert(lines@ =~= old(lines)@.drop_first());
            }
            Ok(name)
        },
        Err(e) => {
            match &e {
                KnotError::InvalidName { line: _, kind: KnotNameError::NoNamePresent } => {
                    if knot_index == 0 {
                        return Ok(root_string());
                    }
                },
                _ => {},
            }
            Err(e)
        },
    }
}

/// Read the stitch name from the first line of a group, if one is present.
pub fn get_stitch_name<'a>(lines: &mut Vec<&'a str>) -> (r: Result<Option<String>, KnotError>)
    ensures
        old(lines)@.len() == 0 ==> (r matches Err(e) && e == KnotError::Empty && final(lines)@
            == old(lines)@),
        old(lines)@.len() > 0 ==> match name_outcome(old(lines)@[0]@, false) {
            NameOutcome::Name(nm) => r matches Ok(o) && (o matches Some(s) && s@ == nm) && final(lines)@ == old(lines)@.drop_first(),
            NameOutcome::NoName => r matches Ok(o) && o is None && final(lines)@ == old(lines)@,
            NameOutcome::BadChar(c) => r matches Err(KnotError::InvalidName { line: l, kind: k })
                && l@ == old(lines)@[0]@ && k == KnotNameError::InvalidCharacter(c) && final(lines)@ == old(lines)@,
        },
{
    if lines.len() == 0 {
        return Err(KnotError::Empty);
    }
    match read_stitch_name(lines[0]) {
        Ok(name) => {
            let _ = lines.remove(0);
            proof {
                assert(lines@ =~= old(lines)@.drop_first());
            }
            Ok(Some(name))
        },
        Err(e) => {
            match &e {
                KnotError::InvalidName { line: _, kind: KnotNameError::NoNamePresent } => {
                    return Ok(None);
                },
                _ => {},
            }
            Err(e)
        },
    }
}

/// The verified name for a stitch: its read name, or the reserved root name
/// for the first, unnamed stitch of a knot.
pub fn get_stitch_identifier(name: Option<String>, stitch_index: usize) -> (r: String)
    requires
        stitch_index > 0 ==> name is Some,
    ensures
        name matches Some(n) ==> r == n,
        name is None ==> r@ == root_name(),
{
    match name {
        Some(n) => n,
        None => root_string(),
    }
}

// ---------------------------------------------------------------------------
// Stitch groups
// ---------------------------------------------------------------------------
/// The name a stitch group parses to.
pub open spec fn stitch_group_name(group: Seq<Seq<char>>) -> Seq<char> {
    match name_outcome(group[0], false) {
        NameOutcome::Name(n) => n,
        _ => root_name(),
    }
}

/// The content lines of a stitch group: its lines, less a consumed name line.
pub open spec fn stitch_group_lines(group: Seq<Seq<char>>) -> Seq<Seq<char>> {
    match name_outcome(group[0], false) {
        NameOutcome::Name(_) => group.drop_first(),
        _ => group,
    }
}

/// Whether a stitch group parses: it has lines, its name is well-formed, and
/// only the first group of a knot may go unnamed.
pub open spec fn stitch_group_ok(group: Seq<Seq<char>>, j: int) -> bool {
    group.len() > 0 && match name_outcome(group[0], false) {
        NameOutcome::Name(_) => true,
        NameOutcome::NoName => j == 0,
        NameOutcome::BadChar(_) => false,
    }
}

/// The error a failing stitch group produces.
pub open spec fn stitch_group_err_matches(group: Seq<Seq<char>>, j: int, e: KnotError) -> bool {
    if group.len() == 0 {
        e == KnotError::Empty
    } else {
        match name_outcome(group[0], false) {
            NameOutcome::BadChar(c) => e matches KnotError::InvalidName { line: l, kind: k } && l@
                == group[0] && k == KnotNameError::InvalidCharacter(c),
            NameOutcome::NoName => j > 0 && (e matches KnotError::MissingStitchName { stitch_index }
                && stitch_index == j),
            NameOutcome::Name(_) => false,
        }
    }
}

/// Parse a single stitch from its group of lines: its name (or the root name
/// for the unnamed first group) and its content.
pub fn get_stitch_from_lines(lines: Vec<&str>, stitch_index: usize) -> (r: Result<
    (String, Stitch),
    KnotError,
>)
    ensures
        stitch_group_ok(lines.deep_view(), stitch_index as int) ==> (r matches Ok(pair) && pair.0@
            == stitch_group_name(lines.deep_view()) && stitch_lines_match(
            pair.1,
            stitch_group_lines(lines.deep_view()),
        )),
        !stitch_group_ok(lines.deep_view(), stitch_index as int) ==> (r matches Err(e)
            && stitch_group_err_matches(lines.deep_view(), stitch_index as int, e)),
{
    let ghost group = lines.deep_view();
    let mut lines = lines;
    let name_opt = match get_stitch_name(&mut lines) {
        Ok(o) => o,
        Err(e) => {
            return Err(e);
        },
    };
    proof {
        if name_opt is Some {
            assert(lines.deep_view() =~= group.drop_first());
        } else {
            assert(lines.deep_view() =~= group);
        }
    }
    if name_opt.is_none() && stitch_index > 0 {
        return Err(KnotError::MissingStitchName { stitch_index });
    }
    let name = get_stitch_identifier(name_opt, stitch_index);
    let stitch = Stitch::from_lines(&lines);
    Ok((name, stitch))
}

// ---------------------------------------------------------------------------
// Collecting named entries into a map
// ---------------------------------------------------------------------------
/// Whether some entry of the list carries this name.
pub open spec fn entries_contain<T>(entries: Seq<(String, T)>, n: Seq<char>) -> bool {
    exists|i: int| 0 <= i < entries.len() && entries[i].0@ == n
}

/// Whether entry `i` is the last of its name in the list.
pub open spec fn last_of_name<T>(entries: Seq<(String, T)>, i: int) -> bool {
    forall|j: int| i < j < entries.len() ==> entries[j].0@ != entries[i].0@
}

/// Collect named entries into a map; a later entry replaces an earlier one
/// of the same name.
#[verifier::loop_isolation(false)]
fn collect_name_map<T>(entries: Vec<(String, T)>) -> (r: NameMap<T>)
    ensures
        r.wf(),
        forall|n: Seq<char>| r.spec_contains(n) <==> entries_contain(entries@, n),
        forall|i: int|
            0 <= i < entries@.len() && last_of_name(entries@, i) ==> r.spec_get(
                #[trigger] entries@[i].0@,
            ) == entries@[i].1,
{
    let ghost all = entries@;
    let mut remaining = entries;
    let total: usize = remaining.len();
    let mut map: NameMap<T> = NameMap::new();
    let mut i: usize = 0;
    while remaining.len() > 0
        invariant
            i + remaining@.len() == all.len(),
            i <= all.len(),
            remaining@ == all.subrange(i as int, all.len() as int),
            map.wf(),
            forall|n: Seq<char>|
                map.spec_contains(n) <==> entries_contain(all.subrange(0, i as int), n),
            forall|k: int|
                0 <= k < i && (forall|j: int| k < j < i ==> all[j].0@ != all[k].0@)
                    ==> map.spec_get(#[trigger] all[k].0@) == all[k].1,
        decreases remaining@.len(),
    {
        let ghost pre = all.subrange(0, i as int);
        let ghost post = all.subrange(0, i as int + 1);
        let (name, value) = remaining.remove(0);
        proof {
            assert(remaining@ =~= all.subrange(i as int + 1, all.len() as int));
            assert((name, value) == all[i as int]);
            assert(post.drop_last() =~= pre);
        }
        let ghost namev = name@;
        map.insert(name, value);
        proof {
            assert(namev == all[i as int].0@);
            assert forall|n: Seq<char>|
                map.spec_contains(n) <==> entries_contain(post, n) by {
                if n == namev {
                    assert(post[i as int].0@ == n);
                    assert(entries_contain(post, n));
                } else {
                    if entries_contain(post, n) {
                        let w = choose|w: int| 0 <= w < post.len() && post[w].0@ == n;
                        assert(pre[w] == post[w]);
                        assert(entries_contain(pre, n));
                    }
                    if entries_contain(pre, n) {
                        let w = choose|w: int| 0 <= w < pre.len() && pre[w].0@ == n;
                        assert(post[w] == pre[w]);
                        assert(entries_contain(post, n));
                    }
                }
            }
            assert forall|k: int|
                0 <= k < i + 1 && (forall|j: int| k < j < i + 1 ==> all[j].0@ != all[k].0@)
                    implies map.spec_get(#[trigger] all[k].0@) == all[k].1 by {
                if k == i as int {
                    assert(map.spec_get(namev) == all[k].1);
                } else {
                    assert(all[i as int].0@ != all[k].0@);
                    assert(all[k].0@ != namev);
                    assert(pre[k] == all[k]);
                    assert(entries_contain(pre, all[k].0@));
                    assert(forall|j: int| k < j < i ==> all[j].0@ != all[k].0@);
                }
            }
        }
        i = i + 1;
    }
    proof {
        assert(all.subrange(0, all.len() as int) =~= all);
    }
    map
}

/// Collect parsed stitches into a map and return the first stitch's name,
/// which becomes the knot's default stitch.
pub fn get_default_stitch_and_hash_map_tuple(stitches: Vec<(String, Stitch)>) -> (r: Result<
    (String, NameMap<Stitch>),
    KnotError,
>)
    ensures
        stitches@.len() == 0 ==> (r matches Err(e) && e == KnotError::Empty),
        stitches@.len() > 0 ==> (r matches Ok(pair) && pair.0@ == stitches@[0].0@ && pair.1.wf() && (
        forall|n: Seq<char>| pair.1.spec_contains(n) <==> entries_contain(stitches@, n)) && (forall|
            i: int,
        |
            0 <= i < stitches@.len() && last_of_name(stitches@, i) ==> pair.1.spec_get(
                #[trigger] stitches@[i].0@,
            ) == stitches@[i].1)),
{
    if stitches.len() == 0 {
        return Err(KnotError::Empty);
    }
    let default_name = stitches[0].0.clone();
    let map = collect_name_map(stitches);
    Ok((default_name, map))
}

// ---------------------------------------------------------------------------
// Knot groups
// ---------------------------------------------------------------------------
/// The stitch marker, as characters.
pub open spec fn stitch_marker_seq() -> Seq<char> {
    seq!['=']
}

/// The knot marker, as characters.
pub open spec fn knot_marker_seq() -> Seq<char> {
    seq!['=', '=']
}

/// The name a knot group parses to.
pub open spec fn knot_group_name(group: Seq<Seq<char>>, index: int) -> Seq<char> {
    match name_outcome(group[0], true) {
        NameOutcome::Name(n) => n,
        _ => root_name(),
    }
}

/// The lines of a knot group, less a consumed name line.
pub open spec fn knot_group_rest(group: Seq<Seq<char>>) -> Seq<Seq<char>> {
    match name_outcome(group[0], true) {
        NameOutcome::Name(_) => group.drop_first(),
        _ => group,
    }
}

/// The stitch groups of a knot group.
pub open spec fn knot_sgroups(group: Seq<Seq<char>>) -> Seq<Seq<Seq<char>>> {
    divide_spec(knot_group_rest(group), stitch_marker_seq())
}

/// Whether the knot's name line parses: only the first group of a story may
/// go unnamed.
pub open spec fn knot_name_ok(group: Seq<Seq<char>>, index: int) -> bool {
    group.len() > 0 && match name_outcome(group[0], true) {
        NameOutcome::Name(_) => true,
        NameOutcome::NoName => index == 0,
        NameOutcome::BadChar(_) => false,
    }
}

/// Whether a knot group parses: its name is in order, it has content lines,
/// and all its stitch groups parse.
pub open spec fn knot_group_ok(group: Seq<Seq<char>>, index: int) -> bool {
    &&& knot_name_ok(group, index)
    &&& knot_sgroups(group).len() > 0
    &&& forall|j: int|
        0 <= j < knot_sgroups(group).len() ==> stitch_group_ok(#[trigger] knot_sgroups(group)[j], j)
}

/// A parsed knot holds exactly its group's stitches: the first stitch's name
/// is the default, every stitch group's name is present, and each name maps
/// to the content of the last group carrying it.
pub open spec fn knot_matches(knot: Knot, group: Seq<Seq<char>>, index: int) -> bool {
    let sgs = knot_sgroups(group);
    &&& knot.default_stitch@ == stitch_group_name(sgs[0])
    &&& knot.stitches.wf()
    &&& forall|n: Seq<char>|
        knot.stitches.spec_contains(n) <==> (exists|j: int|
            0 <= j < sgs.len() && stitch_group_name(#[trigger] sgs[j]) == n)
    &&& forall|j: int|
        0 <= j < sgs.len() && (forall|j2: int|
            j < j2 < sgs.len() ==> stitch_group_name(sgs[j2]) != stitch_group_name(sgs[j]))
            ==> stitch_lines_match(
            knot.stitches.spec_get(stitch_group_name(#[trigger] sgs[j])),
            stitch_group_lines(sgs[j]),
        )
}

/// The error a failing knot group produces.
pub open spec fn knot_group_err_matches(group: Seq<Seq<char>>, index: int, e: KnotError) -> bool {
    if group.len() == 0 {
        e == KnotError::Empty
    } else if !knot_name_ok(group, index) {
        match name_outcome(group[0], true) {
            NameOutcome::BadChar(c) => e matches KnotError::InvalidName { line: l, kind: k } && l@
                == group[0] && k == KnotNameError::InvalidCharacter(c),
            NameOutcome::NoName => e matches KnotError::InvalidName { line: l, kind: k } && l@
                == group[0] && k == KnotNameError::NoNamePresent,
            NameOutcome::Name(_) => false,
        }
    } else if knot_sgroups(group).len() == 0 {
        e == KnotError::Empty
    } else {
        exists|j: int|
            0 <= j < knot_sgroups(group).len() && !stitch_group_ok(#[trigger] knot_sgroups(group)[j], j)
                && stitch_group_err_matches(knot_sgroups(group)[j], j, e)
    }
}

/// Parse a single knot from its group of lines: its name (or the root name
/// for the unnamed first group) and its stitches.
#[verifier::loop_isolation(false)]
pub fn get_knot_from_lines(lines: Vec<&str>, knot_index: usize) -> (r: Result<
    (String, Knot),
    KnotError,
>)
    ensures
        knot_group_ok(lines.deep_view(), knot_index as int) ==> (r matches Ok(pair) && pair.0@
            == knot_group_name(lines.deep_view(), knot_index as int) && knot_matches(
            pair.1,
            lines.deep_view(),
            knot_index as int,
        )),
        !knot_group_ok(lines.deep_view(), knot_index as int) ==> (r matches Err(e)
            && knot_group_err_matches(lines.deep_view(), knot_index as int, e)),
{
    let ghost group = lines.deep_view();
    let mut lines = lines;
    let knot_name = match get_knot_name(&mut lines, knot_index) {
        Ok(n) => n,
        Err(e) => {
            return Err(e);
        },
    };
    proof {
        if group.len() > 0 && name_outcome(group[0], true) is Name {
            assert(lines.deep_view() =~= group.drop_first());
        } else {
            assert(lines.deep_view() =~= group);
        }
        assert(lines.deep_view() == knot_group_rest(group));
    }
    let knot_stitch_sets = divide_lines_at_marker(lines, STITCH_MARKER);
    proof {
        reveal_strlit("=");
        assert(STITCH_MARKER@ =~= stitch_marker_seq());
        assert(knot_stitch_sets.deep_view() == knot_sgroups(group));
    }
    let ghost sgs = knot_sgroups(group);
    let mut stitches: Vec<(String, Stitch)> = Vec::new();
    let mut sets = knot_stitch_sets;
    let total: usize = sets.len();
    let mut j: usize = 0;
    while sets.len() > 0
        invariant
            j + sets@.len() == sgs.len(),
            j <= sgs.len(),
            sets.deep_view() =~= sgs.subrange(j as int, sgs.len() as int),
            stitches@.len() == j,
            forall|k: int| 0 <= k < j ==> stitch_group_ok(#[trigger] sgs[k], k),
            forall|k: int|
                0 <= k < j ==> (#[trigger] stitches@[k].0@ == stitch_group_name(sgs[k])
                    && stitch_lines_match(stitches@[k].1, stitch_group_lines(sgs[k]))),
        decreases sets@.len(),
    {
        let ghost sets0 = sets.deep_view();
        let ghost bv = sets@;
        let set = sets.remove(0);
        proof {
            assert(set == bv[0]);
            assert(set.deep_view() == sets0[0]);
            assert(sets0[0] == sgs[j as int]);
            assert forall|k: int|
                0 <= k < sets.deep_view().len() implies #[trigger] sets.deep_view()[k] == sgs[j
                as int + 1 + k] by {
                assert(sets@[k] == bv[k + 1]);
                assert(sets0[k + 1] == bv[k + 1].deep_view());
            }
            assert(sets.deep_view() =~= sgs.subrange(j as int + 1, sgs.len() as int));
        }
        let pair = match get_stitch_from_lines(set, j) {
            Ok(p) => p,
            Err(e) => {
                proof {
                    assert(!stitch_group_ok(sgs[j as int], j as int));
                    assert(!knot_group_ok(group, knot_index as int));
                    assert(knot_group_err_matches(group, knot_index as int, e));
                }
                return Err(e);
            },
        };
        stitches.push(pair);
        j = j + 1;
    }
    let ghost stitches_seq = stitches@;
    let (default_stitch, stitch_map) = match get_default_stitch_and_hash_map_tuple(stitches) {
        Ok(p) => p,
        Err(e) => {
            proof {
                assert(sgs.len() == 0);
                assert(knot_group_err_matches(group, knot_index as int, e));
            }
            return Err(e);
        },
    };
    let knot = Knot { default_stitch, stitches: stitch_map };
    proof {
        assert(knot_group_ok(group, knot_index as int));
        assert(knot.default_stitch@ == stitch_group_name(sgs[0]));
        assert forall|n: Seq<char>|
            knot.stitches.spec_contains(n) <==> (exists|j2: int|
                0 <= j2 < sgs.len() && stitch_group_name(#[trigger] sgs[j2]) == n) by {
            if knot.stitches.spec_contains(n) {
                let w = choose|w: int|
                    0 <= w < stitches_seq.len() && stitches_seq[w].0@ == n;
                assert(stitch_group_name(sgs[w]) == n);
            }
            if exists|j2: int| 0 <= j2 < sgs.len() && stitch_group_name(#[trigger] sgs[j2]) == n {
                let w = choose|w: int| 0 <= w < sgs.len() && stitch_group_name(sgs[w]) == n;
                assert(stitches_seq[w].0@ == n);
                assert(entries_contain(stitches_seq, n));
            }
        }
        assert forall|j2: int|
            0 <= j2 < sgs.len() && (forall|j3: int|
                j2 < j3 < sgs.len() ==> stitch_group_name(sgs[j3]) != stitch_group_name(sgs[j2]))
                implies stitch_lines_match(
            knot.stitches.spec_get(stitch_group_name(#[trigger] sgs[j2])),
            stitch_group_lines(sgs[j2]),
        ) by {
            assert forall|j3: int|
                j2 < j3 < stitches_seq.len() implies stitches_seq[j3].0@ != stitches_seq[j2].0@ by {
                assert(stitches_seq[j3].0@ == stitch_group_name(sgs[j3]));
            }
            assert(last_of_name(stitches_seq, j2));
            assert(knot.stitches.spec_get(stitches_seq[j2].0@) == stitches_seq[j2].1);
        }
        assert(knot_matches(knot, group, knot_index as int));
    }
    Ok((knot_name, knot))
}

// ---------------------------------------------------------------------------
// The whole story
// ---------------------------------------------------------------------------
/// The knot groups of a story source: its lines, pre-filtered, divided at
/// knot markers.
pub open spec fn story_groups(content: Seq<char>) -> Seq<Seq<Seq<char>>> {
    divide_spec(kept_lines(split_lines_spec(content)), knot_marker_seq())
}

/// Whether a story source parses: it has content and every knot group parses.
pub open spec fn story_ok(content: Seq<char>) -> bool {
    &&& story_groups(content).len() > 0
    &&& forall|i: int|
        0 <= i < story_groups(content).len() ==> knot_group_ok(
            #[trigger] story_groups(content)[i],
            i,
        )
}

/// A parsed story holds exactly its groups' knots, each name mapping to the
/// knot of the last group carrying it.
pub open spec fn story_matches(root: Seq<char>, knots: Knots, content: Seq<char>) -> bool {
    let gs = story_groups(content);
    &&& root == knot_group_name(gs[0], 0)
    &&& knots.wf()
    &&& forall|n: Seq<char>|
        knots.spec_contains(n) <==> (exists|i: int|
            0 <= i < gs.len() && knot_group_name(#[trigger] gs[i], i) == n)
    &&& forall|i: int|
        0 <= i < gs.len() && (forall|i2: int|
            i < i2 < gs.len() ==> knot_group_name(gs[i2], i2) != knot_group_name(gs[i], i))
            ==> knot_matches(
            knots.spec_get(knot_group_name(#[trigger] gs[i], i)),
            gs[i],
            i,
        )
}

/// Parse an input string into its set of knots.
///
/// Returns the knot collection and the name of the first knot (the story
/// root).  `ParseError::Empty` reports a source with no content lines; a
/// knot group that does not parse reports its `KnotError`.
#[verifier::loop_isolation(false)]
pub fn read_knots_from_string(content: &str) -> (r: Result<(String, Knots), ParseError>)
    ensures
        story_groups(content@).len() == 0 ==> (r matches Err(e) && e == ParseError::Empty),
        story_ok(content@) ==> (r matches Ok(pair) && story_matches(pair.0@, pair.1, content@)),
        (story_groups(content@).len() > 0 && !story_ok(content@)) ==> (r matches Err(
            ParseError::Knot(e),
        ) && exists|i: int|
            0 <= i < story_groups(content@).len() && !knot_group_ok(
                #[trigger] story_groups(content@)[i],
                i,
            ) && knot_group_err_matches(story_groups(content@)[i], i, e)),
{
    let all_lines = split_content_lines(content);
    let content_lines = remove_empty_and_comment_lines(all_lines);
    let knot_line_sets = divide_lines_at_marker(content_lines, KNOT_MARKER);
    proof {
        reveal_strlit("==");
        assert(KNOT_MARKER@ =~= knot_marker_seq());
        assert(knot_line_sets.deep_view() == story_groups(content@));
    }
    let ghost gs = story_groups(content@);
    if knot_line_sets.len() == 0 {
        return Err(ParseError::Empty);
    }
    let mut knots_vec: Vec<(String, Knot)> = Vec::new();
    let mut sets = knot_line_sets;
    let total: usize = sets.len();
    let mut i: usize = 0;
    while sets.len() > 0
        invariant
            i + sets@.len() == gs.len(),
            sets.deep_view() =~= gs.subrange(i as int, gs.len() as int),
            knots_vec@.len() == i,
            forall|k: int| 0 <= k < i ==> knot_group_ok(#[trigger] gs[k], k),
            forall|k: int|
                0 <= k < i ==> (#[trigger] knots_vec@[k].0@ == knot_group_name(gs[k], k)
                    && knot_matches(knots_vec@[k].1, gs[k], k)),
        decreases sets@.len(),
    {
        let ghost sets0 = sets.deep_view();
        let ghost bv = sets@;
        let set = sets.remove(0);
        proof {
            assert(set == bv[0]);
            assert(set.deep_view() == sets0[0]);
            assert(sets0[0] == gs[i as int]);
            assert forall|k: int|
                0 <= k < sets.deep_view().len() implies #[trigger] sets.deep_view()[k] == gs[i
                as int + 1 + k] by {
                assert(sets@[k] == bv[k + 1]);
                assert(sets0[k + 1] == bv[k + 1].deep_view());
            }
            assert(sets.deep_view() =~= gs.subrange(i as int + 1, gs.len() as int));
        }
        let pair = match get_knot_from_lines(set, i) {
            Ok(p) => p,
            Err(e) => {
                proof {
                    assert(!knot_group_ok(gs[i as int], i as int));
                    assert(!story_ok(content@));
                }
                return Err(ParseError::Knot(e));
            },
        };
        knots_vec.push(pair);
        i = i + 1;
    }
    let ghost knots_seq = knots_vec@;
    let root_knot_name = knots_vec[0].0.clone();
    let knots = collect_name_map(knots_vec);
    proof {
        assert(story_ok(content@));
        assert forall|n: Seq<char>|
            knots.spec_contains(n) <==> (exists|i2: int|
                0 <= i2 < gs.len() && knot_group_name(#[trigger] gs[i2], i2) == n) by {
            if knots.spec_contains(n) {
                let w = choose|w: int| 0 <= w < knots_seq.len() && knots_seq[w].0@ == n;
                assert(knot_group_name(gs[w], w) == n);
            }
            if exists|i2: int| 0 <= i2 < gs.len() && knot_group_name(#[trigger] gs[i2], i2) == n {
                let w = choose|w: int| 0 <= w < gs.len() && knot_group_name(gs[w], w) == n;
                assert(knots_seq[w].0@ == n);
                assert(entries_contain(knots_seq, n));
            }
        }
        assert forall|i2: int|
            0 <= i2 < gs.len() && (forall|i3: int|
                i2 < i3 < gs.len() ==> knot_group_name(gs[i3], i3) != knot_group_name(gs[i2], i2))
                implies knot_matches(
            knots.spec_get(knot_group_name(#[trigger] gs[i2], i2)),
            gs[i2],
            i2,
        ) by {
            assert forall|i3: int|
                i2 < i3 < knots_seq.len() implies knots_seq[i3].0@ != knots_seq[i2].0@ by {
                assert(knots_seq[i3].0@ == knot_group_name(gs[i3], i3));
            }
            assert(last_of_name(knots_seq, i2));
            assert(knots.spec_get(knots_seq[i2].0@) == knots_seq[i2].1);
        }
        assert(story_matches(root_knot_name@, knots, content@));
    }
    Ok((root_knot_name, knots))
}

} // verus!
