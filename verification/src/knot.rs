//! Knots and stitches: the containers of the story graph, and the reading of
//! their name lines.
//!
//! A knot is declared by a line whose trimmed prefix is `==`; a stitch by a
//! line whose trimmed prefix is `=`.  A name line reads
//! `<marker> <identifier> [<markers>]`: the run of `=` characters opening the
//! line and any run closing it are decorative, and the identifier between
//! them is the name.

use vstd::prelude::*;
use vstd::string::*;
use crate::error::{KnotError, KnotNameError};
use crate::line::InternalLine;
use crate::namemap::NameMap;
use crate::text::{
    back_eq_in, back_spaces_in, char_is_ident_char, char_is_ident_start, chars_to_string,
    eq_back_idx, eq_run_idx, first_non_ident_idx, is_ident_char, is_ident_start, is_identifier,
    is_space, lemma_eq_back_idx, lemma_eq_run_idx, lemma_first_non_ident_idx,
    lemma_trim_end_idx, lemma_trim_start_idx, skip_eq_in, skip_spaces_in, split_content_lines,
    split_lines_spec, str_chars, trim_end_spec, trim_spec, trim_start_spec,
};

verus! {

/// Reserved name for the implicit, unnamed first knot or stitch.
pub const ROOT_KNOT_NAME: &'static str = "$ROOT$";

/// Marker opening a knot declaration line.
pub const KNOT_MARKER: &'static str = "==";

/// Marker opening a stitch declaration line.
pub const STITCH_MARKER: &'static str = "=";

/// Marker opening a comment line.
pub const LINE_COMMENT_MARKER: &'static str = "//";

/// Marker opening a todo-comment line.
pub const TODO_COMMENT_MARKER: &'static str = "TODO:";

/// The characters of the reserved root name.
pub open spec fn root_name() -> Seq<char> {
    seq!['$', 'R', 'O', 'O', 'T', '$']
}

/// What a name line holds.
pub enum NameOutcome {
    /// A well-formed identifier.
    Name(Seq<char>),
    /// No marker, or nothing besides markers and whitespace.
    NoName,
    /// A name region holding a character identifiers do not allow; the
    /// first such character.
    BadChar(char),
}

/// The name read from a line already known to start with its marker:
/// everything after the opening run of `=` characters, trimmed, with a
/// closing run of `=` characters and trailing whitespace removed.
pub open spec fn name_from_marker_line(t: Seq<char>) -> NameOutcome {
    let a2 = t.subrange(eq_run_idx(t) as int, t.len() as int);
    let w = trim_spec(a2);
    let x = w.subrange(0, eq_back_idx(w) as int);
    let core = trim_end_spec(x);
    if core.len() == 0 {
        NameOutcome::NoName
    } else if is_identifier(core) {
        NameOutcome::Name(core)
    } else {
        NameOutcome::BadChar(bad_char_of(core))
    }
}

/// The first character of `core` that breaks the identifier rule.
pub open spec fn bad_char_of(core: Seq<char>) -> char {
    if !is_ident_start(core[0]) {
        core[0]
    } else {
        core[first_non_ident_idx(core) as int]
    }
}

/// Whether the trimmed start of `line` opens with the knot marker (`==`) or,
/// for `is_knot == false`, the stitch marker (`=`).
pub open spec fn has_marker(line: Seq<char>, is_knot: bool) -> bool {
    let t = trim_start_spec(line);
    if is_knot {
        t.len() >= 2 && t[0] == '=' && t[1] == '='
    } else {
        t.len() >= 1 && t[0] == '='
    }
}

/// What reading a knot (or stitch) name from `line` yields.
pub open spec fn name_outcome(line: Seq<char>, is_knot: bool) -> NameOutcome {
    if !has_marker(line, is_knot) {
        NameOutcome::NoName
    } else {
        name_from_marker_line(trim_start_spec(line))
    }
}

/// Read a name line.  The contract covers the three outcomes: a name is
/// returned as it stands in the line; a nameless line is a
/// [`KnotNameError::NoNamePresent`] error; a malformed name reports its
/// first bad character.
fn read_name_line(line: &str, is_knot: bool) -> (r: Result<String, KnotError>)
    ensures
        name_outcome(line@, is_knot) matches NameOutcome::Name(nm) ==> (r matches Ok(s) && s@
            == nm),
        name_outcome(line@, is_knot) is NoName ==> (r matches Err(KnotError::InvalidName {
            line: l,
            kind: k,
        }) && l@ == line@ && k == KnotNameError::NoNamePresent),
        name_outcome(line@, is_knot) matches NameOutcome::BadChar(c) ==> (r matches Err(
            KnotError::InvalidName { line: l, kind: k },
        ) && l@ == line@ && k == KnotNameError::InvalidCharacter(c)),
{
    let v = str_chars(line);
    let n = v.len();
    let a = skip_spaces_in(&v, 0, n);
    proof {
        lemma_trim_start_idx(v@, a as int);
    }
    let ghost t = trim_start_spec(line@);
    proof {
        assert(t =~= v@.subrange(a as int, n as int));
    }
    let marker_ok = if is_knot {
        n - a >= 2 && v[a] == '=' && v[a + 1] == '='
    } else {
        n - a >= 1 && v[a] == '='
    };
    proof {
        if n - a >= 1 {
            assert(t[0] == v@[a as int]);
        }
        if n - a >= 2 {
            assert(t[1] == v@[a as int + 1]);
        }
    }
    if !marker_ok {
        return Err(
            KnotError::InvalidName { line: line.to_owned(), kind: KnotNameError::NoNamePresent },
        );
    }
    let e = skip_eq_in(&v, a, n);
    proof {
        assert forall|j: int| 0 <= j < e - a implies t[j] == '=' by {
            assert(t[j] == v@[a + j]);
        }
        if e < n {
            assert(t[e - a] == v@[e as int]);
        }
        lemma_eq_run_idx(t, e - a);
    }
    let ghost a2 = t.subrange(eq_run_idx(t) as int, t.len() as int);
    proof {
        assert(a2 =~= v@.subrange(e as int, n as int));
    }
    let s1 = skip_spaces_in(&v, e, n);
    proof {
        assert forall|j: int| 0 <= j < s1 - e implies is_space(a2[j]) by {
            assert(a2[j] == v@[e + j]);
        }
        if s1 < n {
            assert(a2[s1 - e] == v@[s1 as int]);
        }
        lemma_trim_start_idx(a2, s1 - e);
    }
    let ghost t1 = trim_start_spec(a2);
    proof {
        assert(t1 =~= v@.subrange(s1 as int, n as int));
    }
    let b1 = back_spaces_in(&v, s1, n);
    proof {
        assert forall|j: int| b1 - s1 <= j < t1.len() implies is_space(t1[j]) by {
            assert(t1[j] == v@[s1 + j]);
        }
        if b1 > s1 {
            assert(t1[b1 - s1 - 1] == v@[b1 as int - 1]);
        }
        lemma_trim_end_idx(t1, b1 - s1);
    }
    let ghost w = trim_spec(a2);
    proof {
        assert(w =~= v@.subrange(s1 as int, b1 as int));
    }
    let b2 = back_eq_in(&v, s1, b1);
    proof {
        assert forall|j: int| b2 - s1 <= j < w.len() implies w[j] == '=' by {
            assert(w[j] == v@[s1 + j]);
        }
        if b2 > s1 {
            assert(w[b2 - s1 - 1] == v@[b2 as int - 1]);
        }
        lemma_eq_back_idx(w, b2 - s1);
    }
    let ghost x = w.subrange(0, eq_back_idx(w) as int);
    proof {
        assert(x =~= v@.subrange(s1 as int, b2 as int));
    }
    let b3 = back_spaces_in(&v, s1, b2);
    proof {
        assert forall|j: int| b3 - s1 <= j < x.len() implies is_space(x[j]) by {
            assert(x[j] == v@[s1 + j]);
        }
        if b3 > s1 {
            assert(x[b3 - s1 - 1] == v@[b3 as int - 1]);
        }
        lemma_trim_end_idx(x, b3 - s1);
    }
    let ghost core = trim_end_spec(x);
    proof {
        assert(core =~= v@.subrange(s1 as int, b3 as int));
    }
    if s1 == b3 {
        proof {
            assert(core.len() == 0);
        }
        return Err(
            KnotError::InvalidName { line: line.to_owned(), kind: KnotNameError::NoNamePresent },
        );
    }
    proof {
        assert(core.len() > 0);
        assert(core[0] == v@[s1 as int]);
    }
    if !char_is_ident_start(v[s1]) {
        proof {
            assert(!is_identifier(core));
            assert(bad_char_of(core) == v@[s1 as int]);
        }
        return Err(
            KnotError::InvalidName {
                line: line.to_owned(),
                kind: KnotNameError::InvalidCharacter(v[s1]),
            },
        );
    }
    proof {
        assert(name_outcome(line@, is_knot) == (if is_identifier(core) {
            NameOutcome::Name(core)
        } else {
            NameOutcome::BadChar(bad_char_of(core))
        }));
    }
    let mut k: usize = s1;
    while k < b3
        invariant
            s1 <= k <= b3 <= v@.len(),
            core == v@.subrange(s1 as int, b3 as int),
            core.len() > 0,
            is_ident_start(core[0]),
            forall|j: int| s1 <= j < k ==> is_ident_char(v@[j]),
            line@ == v@,
            name_outcome(line@, is_knot) == (if is_identifier(core) {
                NameOutcome::Name(core)
            } else {
                NameOutcome::BadChar(bad_char_of(core))
            }),
        decreases b3 - k,
    {
        if !char_is_ident_char(v[k]) {
            proof {
                assert forall|j: int| 0 <= j < k - s1 implies is_ident_char(core[j]) by {
                    assert(core[j] == v@[s1 + j]);
                }
                assert(core[k - s1] == v@[k as int]);
                lemma_first_non_ident_idx(core, k - s1);
                assert(!is_identifier(core));
                assert(bad_char_of(core) == v@[k as int]);
            }
            return Err(
                KnotError::InvalidName {
                    line: line.to_owned(),
                    kind: KnotNameError::InvalidCharacter(v[k]),
                },
            );
        }
        k = k + 1;
    }
    proof {
        assert forall|j: int| 0 <= j < core.len() implies is_ident_char(core[j]) by {
            assert(core[j] == v@[s1 + j]);
        }
        assert(is_identifier(core));
    }
    let name = chars_to_string(&v, s1, b3);
    Ok(name)
}

/// Read a knot name from its declaration line.
pub fn read_knot_name(line: &str) -> (r: Result<String, KnotError>)
    ensures
        name_outcome(line@, true) matches NameOutcome::Name(nm) ==> (r matches Ok(s) && s@ == nm),
        name_outcome(line@, true) is NoName ==> (r matches Err(KnotError::InvalidName {
            line: l,
            kind: k,
        }) && l@ == line@ && k == KnotNameError::NoNamePresent),
        name_outcome(line@, true) matches NameOutcome::BadChar(c) ==> (r matches Err(
            KnotError::InvalidName { line: l, kind: k },
        ) && l@ == line@ && k == KnotNameError::InvalidCharacter(c)),
{
    read_name_line(line, true)
}

/// Read a stitch name from its declaration line.
pub fn read_stitch_name(line: &str) -> (r: Result<String, KnotError>)
    ensures
        name_outcome(line@, false) matches NameOutcome::Name(nm) ==> (r matches Ok(s) && s@ == nm),
        name_outcome(line@, false) is NoName ==> (r matches Err(KnotError::InvalidName {
            line: l,
            kind: k,
        }) && l@ == line@ && k == KnotNameError::NoNamePresent),
        name_outcome(line@, false) matches NameOutcome::BadChar(c) ==> (r matches Err(
            KnotError::InvalidName { line: l, kind: k },
        ) && l@ == line@ && k == KnotNameError::InvalidCharacter(c)),
{
    read_name_line(line, false)
}

// ---------------------------------------------------------------------------
// The story graph containers
// ---------------------------------------------------------------------------
/// The root node of a stitch: the lines it holds, in authored order.
#[derive(Clone, Debug, PartialEq)]
pub struct RootNode {
    pub items: Vec<InternalLine>,
}

/// A named sub-section of a knot: its content and how often it was entered.
#[derive(Clone, Debug, PartialEq)]
pub struct Stitch {
    pub root: RootNode,
    /// How many times the follow engine has entered this stitch.
    pub num_visited: u32,
}

/// A named top-level section of the story.
#[derive(Clone, Debug, PartialEq)]
pub struct Knot {
    /// The stitch entered when the knot is diverted to without a stitch name.
    pub default_stitch: String,
    pub stitches: NameMap<Stitch>,
}

/// A freshly parsed stitch holds exactly the given lines, unvisited.
pub open spec fn stitch_lines_match(st: Stitch, lines: Seq<Seq<char>>) -> bool {
    &&& st.num_visited == 0
    &&& st.root.items@.len() == lines.len()
    &&& forall|i: int|
        0 <= i < lines.len() ==> (#[trigger] st.root.items@[i].text@ == lines[i]
            && st.root.items@[i].tags@.len() == 0 && !st.root.items@[i].glue_begin
            && !st.root.items@[i].glue_end)
}

impl Stitch {
    /// A stitch holding the given lines, unvisited.
    pub fn from_lines(lines: &Vec<&str>) -> (r: Stitch)
        ensures
            stitch_lines_match(r, lines.deep_view()),
    {
        let mut items: Vec<InternalLine> = Vec::new();
        let mut i: usize = 0;
        while i < lines.len()
            invariant
                i <= lines@.len(),
                items@.len() == i,
                forall|j: int|
                    0 <= j < i ==> (#[trigger] items@[j].text@ == lines@[j]@
                        && items@[j].tags@.len() == 0 && !items@[j].glue_begin
                        && !items@[j].glue_end),
            decreases lines@.len() - i,
        {
            items.push(InternalLine::from_string(lines[i]));
            i = i + 1;
        }
        Stitch { root: RootNode { items }, num_visited: 0 }
    }

    /// A stitch holding the lines of `text`, unvisited.
    pub fn from_str(text: &str) -> (r: Result<Stitch, KnotError>)
        ensures
            r matches Ok(st) && stitch_lines_match(st, split_lines_spec(text@)),
    {
        let lines = split_content_lines(text);
        Ok(Stitch::from_lines(&lines))
    }
}

} // verus!
