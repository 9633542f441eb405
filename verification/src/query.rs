//! The query engine: a small conjunctive filter language over live
//! repository facts, and the repository-state record it is evaluated on.

use vstd::prelude::*;
use crate::project::{clone_strings, contains_str, vec_contains_str, views, ProjectInfo};
use crate::text::{chars_of, str_eq, string_of};

verus! {

/// The live facts collected for one repository: its declaration joined with
/// what git reports about the working copy.  `ahead` and `behind` are both
/// zero whenever no upstream tracking branch exists.
pub struct RepoState {
    pub name: String,
    pub path: String,
    pub tags: Vec<String>,
    pub branch: String,
    pub is_dirty: bool,
    pub ahead: u32,
    pub behind: u32,
    pub last_commit: String,
}

/// Whitespace as the query language understands it.
pub open spec fn is_space(c: char) -> bool {
    c == ' ' || c == '\t' || c == '\n' || c == '\r'
}

/// ASCII lowercasing of one character.
pub open spec fn lower_char(c: char) -> char {
    if 'A' <= c && c <= 'Z' {
        (((c as u8) + 32) as char)
    } else {
        c
    }
}

/// ASCII lowercasing of a character sequence.
pub open spec fn to_lower(s: Seq<char>) -> Seq<char> {
    s.map_values(|c: char| lower_char(c))
}

/// The sequence without leading whitespace.
pub open spec fn trim_front(s: Seq<char>) -> Seq<char>
    decreases s.len(),
{
    if s.len() > 0 && is_space(s[0]) {
        trim_front(s.drop_first())
    } else {
        s
    }
}

/// The sequence without trailing whitespace.
pub open spec fn trim_back(s: Seq<char>) -> Seq<char>
    decreases s.len(),
{
    if s.len() > 0 && is_space(s.last()) {
        trim_back(s.drop_last())
    } else {
        s
    }
}

/// The sequence without leading or trailing whitespace.
pub open spec fn spec_trim(s: Seq<char>) -> Seq<char> {
    trim_back(trim_front(s))
}

/// Whether the five characters starting at `i` spell the conjunction
/// delimiter: a space, `and` in any letter case, a space.
pub open spec fn is_sep_at(s: Seq<char>, i: int) -> bool {
    &&& 0 <= i
    &&& i + 5 <= s.len()
    &&& s[i] == ' '
    &&& (s[i + 1] == 'a' || s[i + 1] == 'A')
    &&& (s[i + 2] == 'n' || s[i + 2] == 'N')
    &&& (s[i + 3] == 'd' || s[i + 3] == 'D')
    &&& s[i + 4] == ' '
}

/// Splits the characters from position `i` on at every delimiter, with
/// `cur` the part read so far; delimiters are taken leftmost-first and do
/// not overlap.
pub open spec fn split_and_from(s: Seq<char>, i: int, cur: Seq<char>) -> Seq<Seq<char>>
    decreases s.len() - i,
{
    if i < 0 || i >= s.len() {
        seq![cur]
    } else if is_sep_at(s, i) {
        seq![cur] + split_and_from(s, i + 5, Seq::empty())
    } else {
        split_and_from(s, i + 1, cur.push(s[i]))
    }
}

/// The conjuncts of the query string: the pieces between delimiters.
pub open spec fn split_and(s: Seq<char>) -> Seq<Seq<char>> {
    split_and_from(s, 0, Seq::empty())
}

/// The first position of `:` in `s` at or after `i`, if any.
pub open spec fn first_colon_from(s: Seq<char>, i: int) -> Option<int>
    decreases s.len() - i,
{
    if i < 0 || i >= s.len() {
        None
    } else if s[i] == ':' {
        Some(i)
    } else {
        first_colon_from(s, i + 1)
    }
}

/// The condition a conjunct denotes: trimmed, split at the first `:` into a
/// lowercased field and a trimmed value.  A blank conjunct or one without a
/// `:` denotes no condition and is dropped.
pub open spec fn cond_of_part(p: Seq<char>) -> Option<(Seq<char>, Seq<char>)> {
    let t = spec_trim(p);
    if t.len() == 0 {
        None
    } else {
        match first_colon_from(t, 0) {
            None => None,
            Some(ci) => Some(
                (
                    to_lower(spec_trim(t.subrange(0, ci))),
                    spec_trim(t.subrange(ci + 1, t.len() as int)),
                ),
            ),
        }
    }
}

/// The conditions denoted by a list of conjuncts, in order.
pub open spec fn conds_of_parts(parts: Seq<Seq<char>>) -> Seq<(Seq<char>, Seq<char>)>
    decreases parts.len(),
{
    if parts.len() == 0 {
        Seq::empty()
    } else {
        match cond_of_part(parts.first()) {
            Some(fv) => seq![fv] + conds_of_parts(parts.drop_first()),
            None => conds_of_parts(parts.drop_first()),
        }
    }
}

/// What a query string parses to.
pub open spec fn spec_parse_query(s: Seq<char>) -> Seq<(Seq<char>, Seq<char>)> {
    conds_of_parts(split_and(s))
}

/// The character sequences of a condition list.
pub open spec fn cond_views(cs: Seq<(String, String)>) -> Seq<(Seq<char>, Seq<char>)> {
    cs.map_values(|c: (String, String)| (c.0@, c.1@))
}

/// Removes leading and trailing whitespace.
fn trim_chars(v: &Vec<char>) -> (r: Vec<char>)
    ensures
        r@ == spec_trim(v@),
{
    let n: usize = v.len();
    let mut fi: usize = 0;
    while fi < n && is_space_char(v[fi])
        invariant
            fi <= n,
            n == v@.len(),
            forall|k: int| 0 <= k < fi ==> is_space(#[trigger] v@[k]),
        decreases n - fi,
    {
        fi = fi + 1;
    }
    proof {
        lemma_trim_front_at(v@, fi as int);
    }
    if fi == n {
        proof {
            assert(trim_front(v@) =~= Seq::<char>::empty());
            assert(spec_trim(v@) =~= Seq::<char>::empty());
        }
        return Vec::new();
    }
    let mut li: usize = n;
    while li > fi + 1 && is_space_char(v[li - 1])
        invariant
            fi < li <= n,
            n == v@.len(),
            forall|k: int| li <= k < n ==> is_space(#[trigger] v@[k]),
        decreases li,
    {
        li = li - 1;
    }
    // the character at `fi` is not whitespace, so the scan stops at li > fi
    proof {
        assert(!is_space(v@[fi as int]));
        assert(!is_space(v@[li - 1]) || li - 1 == fi);
        assert(!is_space(v@[li - 1]));
        lemma_trim_back_at(v@.subrange(fi as int, n as int), li - fi);
        assert(trim_front(v@).subrange(0, li - fi) =~= v@.subrange(fi as int, li as int));
    }
    let mut r: Vec<char> = Vec::new();
    let mut k: usize = fi;
    while k < li
        invariant
            fi <= k <= li <= n,
            n == v@.len(),
            r@ == v@.subrange(fi as int, k as int),
        decreases li - k,
    {
        r.push(v[k]);
        proof {
            assert(r@ =~= v@.subrange(fi as int, k + 1 as int));
        }
        k = k + 1;
    }
    proof {
        assert(r@ =~= v@.subrange(fi as int, li as int));
    }
    r
}

/// Whitespace test on one character.
fn is_space_char(c: char) -> (r: bool)
    ensures
        r == is_space(c),
{
    c == ' ' || c == '\t' || c == '\n' || c == '\r'
}

proof fn lemma_trim_front_at(s: Seq<char>, i: int)
    requires
        0 <= i <= s.len(),
        forall|k: int| 0 <= k < i ==> is_space(#[trigger] s[k]),
        i == s.len() || !is_space(s[i]),
    ensures
        trim_front(s) == s.subrange(i, s.len() as int),
    decreases i,
{
    if i == 0 {
        if s.len() > 0 && is_space(s[0]) {
            assert(false);
        }
        assert(s.subrange(0, s.len() as int) =~= s);
    } else {
        assert(is_space(s[0]));
        let d = s.drop_first();
        assert(d =~= s.subrange(1, s.len() as int));
        assert(forall|k: int| 0 <= k < i - 1 ==> is_space(#[trigger] d[k]));
        lemma_trim_front_at(d, i - 1);
        assert(d.subrange(i - 1, d.len() as int) =~= s.subrange(i, s.len() as int));
    }
}

proof fn lemma_trim_back_at(s: Seq<char>, j: int)
    requires
        0 <= j <= s.len(),
        forall|k: int| j <= k < s.len() ==> is_space(#[trigger] s[k]),
        j == 0 || !is_space(s[j - 1]),
    ensures
        trim_back(s) == s.subrange(0, j),
    decreases s.len(),
{
    if j == s.len() {
        if s.len() > 0 && is_space(s.last()) {
            assert(!is_space(s[j - 1]));
            assert(false);
        }
        assert(s.subrange(0, j) =~= s);
    } else {
        assert(is_space(s.last()));
        let d = s.drop_last();
        assert(d =~= s.subrange(0, s.len() - 1));
        assert(forall|k: int| j <= k < d.len() ==> is_space(#[trigger] d[k]));
        lemma_trim_back_at(d, j);
        assert(d.subrange(0, j) =~= s.subrange(0, j));
    }
}

/// ASCII lowercasing.
fn lower_chars(v: &Vec<char>) -> (r: Vec<char>)
    ensures
        r@ == to_lower(v@),
{
    let mut r: Vec<char> = Vec::new();
    let mut i: usize = 0;
    while i < v.len()
        invariant
            i <= v@.len(),
            r@ == to_lower(v@.take(i as int)),
        decreases v@.len() - i,
    {
        let c = v[i];
        let lc: char = if 'A' <= c && c <= 'Z' {
            ((c as u8) + 32) as char
        } else {
            c
        };
        r.push(lc);
        proof {
            assert(r@ =~= to_lower(v@.take(i + 1 as int)));
        }
        i = i + 1;
    }
    proof {
        assert(v@.take(v@.len() as int) =~= v@);
    }
    r
}

/// The position of the first `:`, if any.
fn find_colon(v: &Vec<char>) -> (r: Option<usize>)
    ensures
        match r {
            Some(ci) => first_colon_from(v@, 0) == Some(ci as int),
            None => first_colon_from(v@, 0) is None,
        },
{
    let mut i: usize = 0;
    while i < v.len()
        invariant
            i <= v@.len(),
            first_colon_from(v@, 0) == first_colon_from(v@, i as int),
        decreases v@.len() - i,
    {
        if v[i] == ':' {
            return Some(i);
        }
        i = i + 1;
    }
    None
}

/// A copy of the subrange `[from, to)`.
fn subrange_chars(v: &Vec<char>, from: usize, to: usize) -> (r: Vec<char>)
    requires
        from <= to <= v@.len(),
    ensures
        r@ == v@.subrange(from as int, to as int),
{
    let mut r: Vec<char> = Vec::new();
    let mut k: usize = from;
    while k < to
        invariant
            from <= k <= to <= v@.len(),
            r@ == v@.subrange(from as int, k as int),
        decreases to - k,
    {
        r.push(v[k]);
        proof {
            assert(r@ =~= v@.subrange(from as int, k + 1 as int));
        }
        k = k + 1;
    }
    r
}

/// The condition denoted by one conjunct, if any.
fn cond_of_part_exec(part: &Vec<char>) -> (r: Option<(Vec<char>, Vec<char>)>)
    ensures
        match r {
            Some(fv) => cond_of_part(part@) == Some((fv.0@, fv.1@)),
            None => cond_of_part(part@) is None,
        },
{
    let t = trim_chars(part);
    if t.len() == 0 {
        return None;
    }
    match find_colon(&t) {
        None => None,
        Some(ci) => {
            proof {
                lemma_first_colon_bounds(t@, 0);
            }
            let field_raw = subrange_chars(&t, 0, ci);
            let field = lower_chars(&trim_chars(&field_raw));
            let value = trim_chars(&subrange_chars(&t, ci + 1, t.len()));
            Some((field, value))
        },
    }
}

proof fn lemma_first_colon_bounds(s: Seq<char>, i: int)
    requires
        first_colon_from(s, i) is Some,
    ensures
        i <= first_colon_from(s, i)->Some_0 < s.len(),
    decreases s.len() - i,
{
    if !(i < 0 || i >= s.len()) && s[i] != ':' {
        lemma_first_colon_bounds(s, i + 1);
    }
}

/// Parses a query string into its condition list.
///
/// The string is split on the delimiter ` AND ` (any letter case); each
/// conjunct is trimmed and split at its first `:` into a lowercased field
/// and a value.  Blank conjuncts and conjuncts without a `:` are dropped
/// rather than rejected.
pub fn parse_query(query_str: &str) -> (r: Vec<(String, String)>)
    ensures
        cond_views(r@) == spec_parse_query(query_str@),
{
    let cs = chars_of(query_str);
    let n: usize = cs.len();
    let mut parts: Vec<Vec<char>> = Vec::new();
    let mut cur: Vec<char> = Vec::new();
    let mut i: usize = 0;
    while i < n
        invariant
            i <= n,
            n == cs@.len(),
            cs@ == query_str@,
            split_and(cs@) == parts@.map_values(|p: Vec<char>| p@) + split_and_from(
                cs@,
                i as int,
                cur@,
            ),
        decreases n - i,
    {
        let is_sep: bool = if n >= 5 && i <= n - 5 {
            cs[i] == ' ' && (cs[i + 1] == 'a' || cs[i + 1] == 'A') && (cs[i + 2] == 'n' || cs[i
                + 2] == 'N') && (cs[i + 3] == 'd' || cs[i + 3] == 'D') && cs[i + 4] == ' '
        } else {
            false
        };
        proof {
            assert(is_sep == is_sep_at(cs@, i as int));
        }
        if is_sep {
            let ghost parts0 = parts@;
            parts.push(cur);
            cur = Vec::new();
            i = i + 5;
            proof {
                assert(parts@.map_values(|p: Vec<char>| p@) =~= parts0.map_values(
                    |p: Vec<char>| p@,
                ).push(parts@.last()@));
                assert(split_and(cs@) =~= parts@.map_values(|p: Vec<char>| p@)
                    + split_and_from(cs@, i as int, cur@));
            }
        } else {
            let c = cs[i];
            let ghost cur0 = cur@;
            cur.push(c);
            i = i + 1;
            proof {
                assert(cur@ =~= cur0.push(c));
            }
        }
    }
    let ghost partsfin = parts@.map_values(|p: Vec<char>| p@).push(cur@);
    parts.push(cur);
    proof {
        assert(split_and_from(cs@, n as int, partsfin.last()) =~= seq![partsfin.last()]);
        assert(parts@.map_values(|p: Vec<char>| p@) =~= partsfin);
        assert(split_and(cs@) =~= partsfin);
    }
    let mut conds: Vec<(String, String)> = Vec::new();
    let mut k: usize = 0;
    while k < parts.len()
        invariant
            k <= parts@.len(),
            cond_views(conds@) == conds_of_parts(
                parts@.map_values(|p: Vec<char>| p@).take(k as int),
            ),
        decreases parts@.len() - k,
    {
        let ghost pviews = parts@.map_values(|p: Vec<char>| p@);
        proof {
            lemma_conds_of_parts_take(pviews, k as int);
        }
        match cond_of_part_exec(&parts[k]) {
            Some(fv) => {
                let ghost conds0 = conds@;
                conds.push((string_of(&fv.0), string_of(&fv.1)));
                proof {
                    assert(cond_views(conds@) =~= cond_views(conds0).push(
                        (conds@.last().0@, conds@.last().1@),
                    ));
                    assert(cond_views(conds@) =~= conds_of_parts(pviews.take(k + 1 as int)));
                }
            },
            None => {
                proof {
                    assert(cond_views(conds@) =~= conds_of_parts(pviews.take(k + 1 as int)));
                }
            },
        }
        k = k + 1;
    }
    proof {
        let pviews = parts@.map_values(|p: Vec<char>| p@);
        assert(pviews.take(pviews.len() as int) =~= pviews);
        assert(cond_views(conds@) =~= spec_parse_query(query_str@));
    }
    conds
}

/// Appending one conjunct appends its condition, if it denotes one.
proof fn lemma_conds_of_parts_take(parts: Seq<Seq<char>>, k: int)
    requires
        0 <= k < parts.len(),
    ensures
        conds_of_parts(parts.take(k + 1)) == match cond_of_part(parts[k]) {
            Some(fv) => conds_of_parts(parts.take(k)) + seq![fv],
            None => conds_of_parts(parts.take(k)),
        },
    decreases k,
{
    if k == 0 {
        let t1 = parts.take(1);
        assert(t1.first() == parts[0]);
        assert(t1.drop_first() =~= Seq::<Seq<char>>::empty());
        assert(parts.take(0) =~= Seq::<Seq<char>>::empty());
        match cond_of_part(parts[0]) {
            Some(fv) => {
                assert(conds_of_parts(t1) == seq![fv] + conds_of_parts(t1.drop_first()));
                assert(conds_of_parts(t1) =~= seq![fv]);
                assert(conds_of_parts(parts.take(0)) + seq![fv] =~= seq![fv]);
            },
            None => {},
        }
    } else {
        let tk1 = parts.take(k + 1);
        let tk = parts.take(k);
        assert(tk1.first() == parts[0]);
        assert(tk.first() == parts[0]);
        assert(tk1.drop_first() =~= parts.drop_first().take(k));
        assert(tk.drop_first() =~= parts.drop_first().take(k - 1));
        lemma_conds_of_parts_take(parts.drop_first(), k - 1);
        assert(parts.drop_first()[k - 1] == parts[k]);
        match cond_of_part(parts[k]) {
            Some(fv) => {
                assert(conds_of_parts(parts.drop_first().take(k)) == conds_of_parts(
                    parts.drop_first().take(k - 1),
                ) + seq![fv]);
                match cond_of_part(parts[0]) {
                    Some(fv0) => {
                        assert(conds_of_parts(tk1) =~= seq![fv0] + conds_of_parts(
                            parts.drop_first().take(k - 1),
                        ) + seq![fv]);
                        assert(conds_of_parts(tk) + seq![fv] =~= seq![fv0] + conds_of_parts(
                            parts.drop_first().take(k - 1),
                        ) + seq![fv]);
                    },
                    None => {},
                }
            },
            None => {},
        }
    }
}

/// Whether one condition holds of a repository state.
pub open spec fn cond_matches(st: RepoState, f: Seq<char>, v: Seq<char>) -> bool {
    if f == "dirty"@ {
        st.is_dirty == (v == "true"@)
    } else if f == "branch"@ {
        st.branch@ == v
    } else if f == "tag"@ {
        contains_str(st.tags@, v)
    } else if f == "ahead"@ {
        (st.ahead > 0) == (v == "true"@)
    } else if f == "behind"@ {
        (st.behind > 0) == (v == "true"@)
    } else {
        true
    }
}

/// Whether a repository state satisfies every condition of a query.
pub open spec fn spec_matches(st: RepoState, conds: Seq<(Seq<char>, Seq<char>)>) -> bool {
    forall|i: int| 0 <= i < conds.len() ==> cond_matches(st, (#[trigger] conds[i]).0, conds[i].1)
}

/// Declaration order has no effect on evaluation: condition lists with the
/// same members match exactly the same repository states.
pub proof fn lemma_matches_order_irrelevant(
    st: RepoState,
    c1: Seq<(Seq<char>, Seq<char>)>,
    c2: Seq<(Seq<char>, Seq<char>)>,
)
    requires
        forall|x: (Seq<char>, Seq<char>)| c1.contains(x) <==> c2.contains(x),
    ensures
        spec_matches(st, c1) == spec_matches(st, c2),
{
    if spec_matches(st, c1) {
        assert forall|i: int| 0 <= i < c2.len() implies cond_matches(
            st,
            (#[trigger] c2[i]).0,
            c2[i].1,
        ) by {
            assert(c2.contains(c2[i]));
            let j = choose|j: int| 0 <= j < c1.len() && c1[j] == c2[i];
            assert(cond_matches(st, c1[j].0, c1[j].1));
        }
    }
    if spec_matches(st, c2) {
        assert forall|i: int| 0 <= i < c1.len() implies cond_matches(
            st,
            (#[trigger] c1[i]).0,
            c1[i].1,
        ) by {
            assert(c1.contains(c1[i]));
            let j = choose|j: int| 0 <= j < c2.len() && c2[j] == c1[i];
            assert(cond_matches(st, c2[j].0, c2[j].1));
        }
    }
}

/// Evaluates a condition list against one repository state: the conditions
/// are conjoined, and a condition on an unrecognized field always holds.
pub fn matches_query(state: &RepoState, conditions: &Vec<(String, String)>) -> (r: bool)
    ensures
        r == spec_matches(*state, cond_views(conditions@)),
{
    let mut i: usize = 0;
    while i < conditions.len()
        invariant
            i <= conditions@.len(),
            forall|k: int|
                0 <= k < i ==> cond_matches(
                    *state,
                    (#[trigger] cond_views(conditions@)[k]).0,
                    cond_views(conditions@)[k].1,
                ),
        decreases conditions@.len() - i,
    {
        let field = &conditions[i].0;
        let value = &conditions[i].1;
        let ok: bool = if str_eq(field.as_str(), "dirty") {
            state.is_dirty == str_eq(value.as_str(), "true")
        } else if str_eq(field.as_str(), "branch") {
            str_eq(state.branch.as_str(), value.as_str())
        } else if str_eq(field.as_str(), "tag") {
            vec_contains_str(&state.tags, value.as_str())
        } else if str_eq(field.as_str(), "ahead") {
            (state.ahead > 0) == str_eq(value.as_str(), "true")
        } else if str_eq(field.as_str(), "behind") {
            (state.behind > 0) == str_eq(value.as_str(), "true")
        } else {
            true
        };
        proof {
            assert(cond_views(conditions@)[i as int].0 == field@);
            assert(cond_views(conditions@)[i as int].1 == value@);
        }
        if !ok {
            return false;
        }
        i = i + 1;
    }
    true
}

/// Joins one project's declaration with the raw git probe results into a
/// repository state record.  A failed probe falls back to the defaults the
/// collector promises: branch `unknown`, a clean tree, an empty last
/// commit.
pub fn collect_repo_state(
    project: &ProjectInfo,
    branch: &Option<String>,
    status: &Option<String>,
    ahead_behind: (u32, u32),
    last_commit: &Option<String>,
) -> (r: RepoState)
    ensures
        r.name@ == project.name@,
        r.path@ == project.path@,
        r.tags@ == project.tags@,
        r.branch@ == match branch {
            Some(b) => b@,
            None => "unknown"@,
        },
        r.is_dirty == match status {
            Some(st) => st@.len() > 0,
            None => false,
        },
        r.ahead == ahead_behind.0,
        r.behind == ahead_behind.1,
        r.last_commit@ == match last_commit {
            Some(c) => c@,
            None => Seq::<char>::empty(),
        },
{
    let branch_val: String = match branch {
        Some(b) => b.clone(),
        None => "unknown".to_owned(),
    };
    let is_dirty: bool = match status {
        Some(st) => !st.as_str().is_empty(),
        None => false,
    };
    let last: String = match last_commit {
        Some(c) => c.clone(),
        None => String::new(),
    };
    RepoState {
        name: project.name.clone(),
        path: project.path.clone(),
        tags: clone_strings(&project.tags),
        branch: branch_val,
        is_dirty,
        ahead: ahead_behind.0,
        behind: ahead_behind.1,
        last_commit: last,
    }
}

/// The whitespace-separated tokens from position `i` on, with `cur` the
/// token read so far.
pub open spec fn split_ws_from(s: Seq<char>, i: int, cur: Seq<char>) -> Seq<Seq<char>>
    decreases s.len() - i,
{
    if i < 0 || i >= s.len() {
        if cur.len() > 0 {
            seq![cur]
        } else {
            Seq::empty()
        }
    } else if is_space(s[i]) {
        if cur.len() > 0 {
            seq![cur] + split_ws_from(s, i + 1, Seq::empty())
        } else {
            split_ws_from(s, i + 1, Seq::empty())
        }
    } else {
        split_ws_from(s, i + 1, cur.push(s[i]))
    }
}

/// The whitespace-separated tokens of `s`.
pub open spec fn split_ws(s: Seq<char>) -> Seq<Seq<char>> {
    split_ws_from(s, 0, Seq::empty())
}

pub open spec fn is_digit(c: char) -> bool {
    '0' <= c && c <= '9'
}

/// A nonempty run of decimal digits.
pub open spec fn is_digits(t: Seq<char>) -> bool {
    t.len() > 0 && forall|k: int| 0 <= k < t.len() ==> is_digit(#[trigger] t[k])
}

/// The value of one character as a decimal digit; any non-digit counts as
/// ten, which keeps the value non-negative without affecting digit runs.
pub open spec fn digit_val(c: char) -> int {
    let v = c as int - '0' as int;
    if 0 <= v && v <= 9 {
        v
    } else {
        10
    }
}

/// The number a character sequence spells in decimal.
pub open spec fn dec_val(t: Seq<char>) -> int
    decreases t.len(),
{
    if t.len() == 0 {
        0
    } else {
        dec_val(t.drop_last()) * 10 + digit_val(t.last())
    }
}

/// The divergence count a token denotes: its decimal value when it is a
/// digit run that fits a non-negative 32-bit count, and zero otherwise.
pub open spec fn parse_count(t: Seq<char>) -> u32 {
    if is_digits(t) && dec_val(t) <= 0x7fff_ffff {
        dec_val(t) as u32
    } else {
        0u32
    }
}

/// The pair of counts the `rev-list --left-right --count` output denotes:
/// exactly two tokens, each read as a count; anything else counts as no
/// divergence.
pub open spec fn spec_ahead_behind(out: Seq<char>) -> (u32, u32) {
    let toks = split_ws(out);
    if toks.len() == 2 {
        (parse_count(toks[0]), parse_count(toks[1]))
    } else {
        (0u32, 0u32)
    }
}

/// Once a digit prefix exceeds the count bound, the whole sequence does.
proof fn lemma_dec_val_grows(t: Seq<char>, k: int)
    requires
        0 <= k <= t.len(),
        dec_val(t.take(k)) > 0x7fff_ffff,
    ensures
        dec_val(t) > 0x7fff_ffff,
    decreases t.len() - k,
{
    if k < t.len() {
        assert(t.take(k + 1).drop_last() =~= t.take(k));
        assert(t.take(k + 1).last() == t[k]);
        assert(digit_val(t[k]) >= 0);
        assert(dec_val(t.take(k + 1)) == dec_val(t.take(k)) * 10 + digit_val(t[k]));
        assert(dec_val(t.take(k + 1)) > 0x7fff_ffff);
        lemma_dec_val_grows(t, k + 1);
    } else {
        assert(t.take(k) =~= t);
    }
}

/// Reads a token as a bounded count.
fn parse_count_exec(t: &Vec<char>) -> (r: u32)
    ensures
        r == parse_count(t@),
{
    if t.len() == 0 {
        return 0;
    }
    let mut acc: u64 = 0;
    let mut k: usize = 0;
    while k < t.len()
        invariant
            k <= t@.len(),
            t@.len() > 0,
            forall|j: int| 0 <= j < k ==> is_digit(#[trigger] t@[j]),
            acc == dec_val(t@.take(k as int)),
            acc <= 0x7fff_ffff,
        decreases t@.len() - k,
    {
        let c = t[k];
        if c < '0' || c > '9' {
            proof {
                assert(!is_digit(t@[k as int]));
            }
            return 0;
        }
        let d: u64 = (c as u64) - 48;
        acc = acc * 10 + d;
        proof {
            assert('0' <= c && c <= '9');
            assert(digit_val(c) == c as int - 48);
            assert(t@.take(k + 1 as int).drop_last() =~= t@.take(k as int));
            assert(t@.take(k + 1 as int).last() == t@[k as int]);
            assert(t@[k as int] == c);
            assert(acc == dec_val(t@.take(k + 1 as int)));
        }
        if acc > 0x7fff_ffff {
            proof {
                lemma_dec_val_grows(t@, k + 1 as int);
            }
            return 0;
        }
        k = k + 1;
    }
    proof {
        assert(t@.take(t@.len() as int) =~= t@);
        assert(is_digits(t@));
    }
    acc as u32
}

/// The whitespace-separated tokens of a character vector.
fn split_ws_exec(cs: &Vec<char>) -> (r: Vec<Vec<char>>)
    ensures
        r@.map_values(|p: Vec<char>| p@) == split_ws(cs@),
{
    let n: usize = cs.len();
    let mut parts: Vec<Vec<char>> = Vec::new();
    let mut cur: Vec<char> = Vec::new();
    let mut i: usize = 0;
    while i < n
        invariant
            i <= n,
            n == cs@.len(),
            split_ws(cs@) == parts@.map_values(|p: Vec<char>| p@) + split_ws_from(
                cs@,
                i as int,
                cur@,
            ),
        decreases n - i,
    {
        let c = cs[i];
        if is_space_char(c) {
            if cur.len() > 0 {
                let ghost parts0 = parts@;
                parts.push(cur);
                cur = Vec::new();
                proof {
                    assert(parts@.map_values(|p: Vec<char>| p@) =~= parts0.map_values(
                        |p: Vec<char>| p@,
                    ).push(parts@.last()@));
                    assert(split_ws(cs@) =~= parts@.map_values(|p: Vec<char>| p@)
                        + split_ws_from(cs@, i + 1 as int, cur@));
                }
            } else {
                proof {
                    assert(cur@ =~= Seq::<char>::empty());
                }
            }
        } else {
            let ghost cur0 = cur@;
            cur.push(c);
            proof {
                assert(cur@ =~= cur0.push(c));
            }
        }
        i = i + 1;
    }
    if cur.len() > 0 {
        let ghost parts0 = parts@;
        parts.push(cur);
        proof {
            assert(parts@.map_values(|p: Vec<char>| p@) =~= parts0.map_values(
                |p: Vec<char>| p@,
            ).push(parts@.last()@));
            assert(split_ws(cs@) =~= parts@.map_values(|p: Vec<char>| p@));
        }
    } else {
        proof {
            assert(split_ws(cs@) =~= parts@.map_values(|p: Vec<char>| p@));
        }
    }
    parts
}

/// The error of reading ahead/behind counts: the upstream exists but the
/// count probe failed.
#[derive(Debug, PartialEq, Eq, Structural)]
pub enum AheadBehindError {
    CountsUnavailable,
}

/// Derives the ahead/behind commit counts of a repository from the raw git
/// probe results.
///
/// `tracking` is what `rev-parse --abbrev-ref @{upstream}` reported (`None`
/// when it failed); `counts` is what `rev-list --left-right --count`
/// reported.  A missing or empty upstream is not an error and yields zero
/// divergence; with an upstream present, a failed count probe is an error,
/// and otherwise the two whitespace-separated fields of the output are read
/// as bounded decimal counts, each falling back to zero when malformed.
pub fn get_ahead_behind(tracking: &Option<String>, counts: &Option<String>) -> (r: Result<
    (u32, u32),
    AheadBehindError,
>)
    ensures
        match tracking {
            None => r == Ok::<(u32, u32), AheadBehindError>((0u32, 0u32)),
            Some(tr) => {
                if tr@.len() == 0 {
                    r == Ok::<(u32, u32), AheadBehindError>((0u32, 0u32))
                } else {
                    match counts {
                        None => r == Err::<(u32, u32), AheadBehindError>(
                            AheadBehindError::CountsUnavailable,
                        ),
                        Some(out) => r == Ok::<(u32, u32), AheadBehindError>(
                            spec_ahead_behind(out@),
                        ),
                    }
                }
            },
        },
{
    match tracking {
        None => Ok((0, 0)),
        Some(tr) => {
            if tr.as_str().is_empty() {
                return Ok((0, 0));
            }
            match counts {
                None => Err(AheadBehindError::CountsUnavailable),
                Some(out) => {
                    let cs = chars_of(out.as_str());
                    let toks = split_ws_exec(&cs);
                    if toks.len() == 2 {
                        let a = parse_count_exec(&toks[0]);
                        let b = parse_count_exec(&toks[1]);
                        proof {
                            assert(toks@.map_values(|p: Vec<char>| p@)[0] == toks@[0]@);
                            assert(toks@.map_values(|p: Vec<char>| p@)[1] == toks@[1]@);
                        }
                        Ok((a, b))
                    } else {
                        Ok((0, 0))
                    }
                },
            }
        },
    }
}

} // verus!
