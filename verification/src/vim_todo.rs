//! The line codec: one buffer line is decoded into its task groups and
//! re-encoded byte-exactly.
//!
//! The grammar, matched against the whole line: an optional run of tab
//! indentation, optional whitespace and a `-` or `*` bullet with at most one
//! whitespace character after it, an optional id token `%<digits>%`, an
//! optional single filler character, a status token `[c]` with `c` one of
//! space, `-`, `x`, `X`, `d`, `D`, at least one whitespace character, free
//! text without braces, and an optional trailing tag block `{t:...}` ending
//! the line. A line that does not match stays plain text.
use vstd::prelude::*;

use crate::chars::{
    is_ws_char, is_digit_char, run_end, lemma_run_end_bounds, lemma_run_end_unique, ws_pred,
    trim_spec, dec_str, str_to_chars, ws_char, digit_char_test, u64_to_dec,
};
use crate::models::Todo;
use crate::tags::{
    normalize_spec, split_commas_spec, tags_block_spec, storage_tags_spec, split_commas,
    normalize_strings, tags_to_block, tags_to_storage,
};

verus! {

/// The state a task line can be in.
#[derive(Clone, Copy, Debug, PartialEq, Eq, Structural)]
pub enum TodoStatus {
    Open,
    InProgress,
    Done,
    ToDelete,
    Invalid,
}

impl TodoStatus {
    /// The integer code a record's `flags` column stores for this status.
    pub open spec fn flag_spec(self) -> i32 {
        match self {
            TodoStatus::Open => 1,
            TodoStatus::InProgress => 2,
            TodoStatus::Done => 4,
            TodoStatus::ToDelete => 8,
            TodoStatus::Invalid => 16,
        }
    }

    /// The integer code stored in a record's `flags` column.
    pub fn as_flag(&self) -> (r: i32)
        ensures
            r == self.flag_spec(),
    {
        match self {
            TodoStatus::Open => 1,
            TodoStatus::InProgress => 2,
            TodoStatus::Done => 4,
            TodoStatus::ToDelete => 8,
            TodoStatus::Invalid => 16,
        }
    }
}

/// A character allowed inside the status brackets.
pub open spec fn is_status_char(c: char) -> bool {
    c == ' ' || c == '-' || c == 'x' || c == 'X' || c == 'd' || c == 'D'
}

/// The status a status character denotes, case-insensitively.
pub open spec fn status_of_char(c: char) -> TodoStatus {
    if c == ' ' {
        TodoStatus::Open
    } else if c == '-' {
        TodoStatus::InProgress
    } else if c == 'x' || c == 'X' {
        TodoStatus::Done
    } else if c == 'd' || c == 'D' {
        TodoStatus::ToDelete
    } else {
        TodoStatus::Invalid
    }
}

/// An opening or closing brace.
pub open spec fn is_brace(c: char) -> bool {
    c == '{' || c == '}'
}

/// Tab characters, for the indentation run.
pub open spec fn tab_pred() -> spec_fn(char) -> bool {
    |c: char| c == '\t'
}

/// Decimal digits, for the id token run.
pub open spec fn digit_pred() -> spec_fn(char) -> bool {
    |c: char| is_digit_char(c)
}

/// Everything but a brace, for the free-text run.
pub open spec fn not_brace_pred() -> spec_fn(char) -> bool {
    |c: char| !is_brace(c)
}

/// A status token `[c]` starts at `i`.
pub open spec fn status_at(s: Seq<char>, i: int) -> bool {
    &&& 0 <= i
    &&& i + 3 <= s.len()
    &&& s[i] == '['
    &&& is_status_char(s[i + 1])
    &&& s[i + 2] == ']'
}

/// A well-formed tag block starts at `b` and runs to the end of the line.
pub open spec fn tag_block_at(s: Seq<char>, b: int) -> bool {
    &&& 0 <= b
    &&& b + 5 <= s.len()
    &&& s[b] == '{'
    &&& s[b + 1] == 't'
    &&& s[b + 2] == ':'
    &&& s[s.len() - 1] == '}'
}

/// Where the id token ending would be: past the closing `%` when a full
/// `%<digits>%` token starts at `i`, else `i` itself.
pub open spec fn code_end(s: Seq<char>, i: int) -> int {
    if 0 <= i && i < s.len() && s[i] == '%' {
        let d = run_end(s, i + 1, digit_pred());
        if d > i + 1 && d < s.len() && s[d] == '%' {
            d + 1
        } else {
            i
        }
    } else {
        i
    }
}

/// The cut points that partition a matched task line into its groups:
/// level `[0, lvl)`, fill before and around the bullet `[lvl, f0e)`, id
/// token `[f0e, ce)`, single filler `[ce, sp)`, status token `[sp, sp+3)`,
/// whitespace `[sp+3, ts)`, free text `[ts, tg)`, tag block `[tg, len)`.
pub ghost struct Cuts {
    pub lvl: int,
    pub f0e: int,
    pub ce: int,
    pub sp: int,
    pub ts: int,
    pub tg: int,
}

/// Matches one line against the task grammar, returning the cut points.
pub open spec fn decode_cuts(s: Seq<char>) -> Option<Cuts> {
    let lvl = run_end(s, 0, tab_pred());
    let bw = run_end(s, lvl, ws_pred());
    if bw >= s.len() || !(s[bw] == '-' || s[bw] == '*') {
        None
    } else {
        let f0e = if bw + 1 < s.len() && is_ws_char(s[bw + 1]) {
            bw + 2
        } else {
            bw + 1
        };
        let ce = code_end(s, f0e);
        let sp = if status_at(s, ce) {
            ce
        } else if status_at(s, ce + 1) {
            ce + 1
        } else {
            -1
        };
        if sp < 0 {
            None
        } else {
            let se = sp + 3;
            let w = run_end(s, se, ws_pred());
            if w == se {
                None
            } else if w < s.len() && !is_brace(s[w]) {
                let b = run_end(s, w, not_brace_pred());
                if b == s.len() {
                    Some(Cuts { lvl, f0e, ce, sp, ts: w, tg: s.len() as int })
                } else if s[b] == '{' && tag_block_at(s, b) {
                    Some(Cuts { lvl, f0e, ce, sp, ts: w, tg: b })
                } else {
                    None
                }
            } else if w == s.len() {
                if w - se >= 2 {
                    Some(Cuts { lvl, f0e, ce, sp, ts: w - 1, tg: s.len() as int })
                } else {
                    None
                }
            } else {
                if s[w] == '{' && tag_block_at(s, w) && w - se >= 2 {
                    Some(Cuts { lvl, f0e, ce, sp, ts: w - 1, tg: w })
                } else {
                    None
                }
            }
        }
    }
}

/// The eight textual groups of a task line.
pub ghost struct Groups {
    pub level: Seq<char>,
    pub fill0: Seq<char>,
    pub code: Seq<char>,
    pub fill1: Seq<char>,
    pub status: Seq<char>,
    pub fill2: Seq<char>,
    pub todo: Seq<char>,
    pub tags: Seq<char>,
}

/// The groups cut out of the line.
pub open spec fn groups_of(s: Seq<char>, c: Cuts) -> Groups {
    Groups {
        level: s.subrange(0, c.lvl),
        fill0: s.subrange(c.lvl, c.f0e),
        code: s.subrange(c.f0e, c.ce),
        fill1: s.subrange(c.ce, c.sp),
        status: s.subrange(c.sp, c.sp + 3),
        fill2: s.subrange(c.sp + 3, c.ts),
        todo: s.subrange(c.ts, c.tg),
        tags: s.subrange(c.tg, s.len() as int),
    }
}

/// Decodes one line: the groups of a matched task line, `None` for plain
/// text.
pub open spec fn decode_spec(s: Seq<char>) -> Option<Groups> {
    match decode_cuts(s) {
        Some(c) => Some(groups_of(s, c)),
        None => None,
    }
}

/// The exact text a set of groups reassembles to.
pub open spec fn concat_groups(g: Groups) -> Seq<char> {
    g.level + g.fill0 + g.code + g.fill1 + g.status + g.fill2 + g.todo + g.tags
}

/// The cut points of a matched line are ordered and carry the grammar's
/// shape guarantees.
pub proof fn lemma_cuts_shape(s: Seq<char>)
    requires
        decode_cuts(s) is Some,
    ensures
        ({
            let c = decode_cuts(s)->Some_0;
            &&& 0 <= c.lvl <= c.f0e <= c.ce <= c.sp
            &&& c.sp + 3 <= c.ts < c.tg <= s.len()
            &&& status_at(s, c.sp)
            &&& (c.ce == c.f0e || (c.ce - c.f0e >= 3 && s[c.f0e] == '%' && s[c.ce - 1] == '%'
                && forall|k: int| c.f0e < k < c.ce - 1 ==> is_digit_char(s[k])))
            &&& c.sp - c.ce <= 1
            &&& (c.tg == s.len() || tag_block_at(s, c.tg))
            &&& (forall|k: int| c.ts <= k < c.tg ==> !is_brace(s[k]))
            &&& (forall|k: int| c.sp + 3 <= k < c.ts ==> is_ws_char(s[k]))
            &&& c.ts > c.sp + 3 || c.tg > c.ts
        }),
{
    let c = decode_cuts(s)->Some_0;
    let lvl = run_end(s, 0, tab_pred());
    lemma_run_end_bounds(s, 0, tab_pred());
    let bw = run_end(s, lvl, ws_pred());
    lemma_run_end_bounds(s, lvl, ws_pred());
    let f0e = if bw + 1 < s.len() && is_ws_char(s[bw + 1]) {
        bw + 2
    } else {
        bw + 1
    };
    if 0 <= f0e && f0e < s.len() && s[f0e] == '%' {
        lemma_run_end_bounds(s, f0e + 1, digit_pred());
    }
    let ce = code_end(s, f0e);
    let sp = c.sp;
    let se = sp + 3;
    lemma_run_end_bounds(s, se, ws_pred());
    let w = run_end(s, se, ws_pred());
    if w < s.len() && !is_brace(s[w]) {
        lemma_run_end_bounds(s, w, not_brace_pred());
    }
}

/// Round trip: a line that decodes as a task reassembles, group by group,
/// into exactly the original line.
pub proof fn lemma_round_trip(s: Seq<char>)
    ensures
        decode_spec(s) matches Some(g) ==> concat_groups(g) == s,
{
    if decode_spec(s) is Some {
        let c = decode_cuts(s)->Some_0;
        lemma_cuts_shape(s);
        let g = groups_of(s, c);
        assert(concat_groups(g) =~= s);
    }
}

/// One buffer line, decoded. For a matched task line the eight group
/// fields partition the original text; for plain text only `line_` is
/// meaningful and `is_todo` is false.
#[derive(Debug)]
pub struct VimTodo {
    pub is_todo: bool,
    pub line_: String,
    pub level_: String,
    pub fill0_: String,
    pub code_: String,
    pub fill1_: String,
    pub status_: String,
    pub fill2_: String,
    pub todo_: String,
    pub tags_: String,
}

impl VimTodo {
    /// The group fields as decoded text groups.
    pub open spec fn groups(self) -> Groups {
        Groups {
            level: self.level_@,
            fill0: self.fill0_@,
            code: self.code_@,
            fill1: self.fill1_@,
            status: self.status_@,
            fill2: self.fill2_@,
            todo: self.todo_@,
            tags: self.tags_@,
        }
    }

    /// Shape invariant of a decoded task: the status token is a bracketed
    /// status character, the id token is empty or `%<digits>%`, and the tag
    /// block is empty or `{t:...}`.
    pub open spec fn wf(self) -> bool {
        self.is_todo ==> {
            &&& self.status_@.len() == 3
            &&& self.status_@[0] == '['
            &&& is_status_char(self.status_@[1])
            &&& self.status_@[2] == ']'
            &&& (self.code_@.len() == 0 || (self.code_@.len() >= 3 && self.code_@[0] == '%'
                && self.code_@[self.code_@.len() - 1] == '%' && forall|k: int|
                0 < k < self.code_@.len() - 1 ==> is_digit_char(self.code_@[k])))
            &&& (self.tags_@.len() == 0 || (self.tags_@.len() >= 5 && self.tags_@[0] == '{'
                && self.tags_@[1] == 't' && self.tags_@[2] == ':'
                && self.tags_@[self.tags_@.len() - 1] == '}'))
        }
    }

    /// The status this line carries; `Invalid` for plain text.
    pub open spec fn status_spec(self) -> TodoStatus {
        if !self.is_todo {
            TodoStatus::Invalid
        } else {
            status_of_char(self.status_@[1])
        }
    }

    /// The trimmed task text.
    pub open spec fn text_spec(self) -> Seq<char> {
        trim_spec(self.todo_@)
    }

    /// The digits of the id token, empty when no id is assigned.
    pub open spec fn code_digits(self) -> Seq<char> {
        if self.code_@.len() == 0 {
            Seq::<char>::empty()
        } else {
            self.code_@.subrange(1, self.code_@.len() - 1)
        }
    }

    /// Whether an id token is present.
    pub open spec fn has_code(self) -> bool {
        self.code_@.len() > 0
    }

    /// The canonical tag list this line carries.
    pub open spec fn tags_list(self) -> Seq<Seq<char>> {
        if self.tags_@.len() == 0 {
            Seq::<Seq<char>>::empty()
        } else {
            normalize_spec(split_commas_spec(self.tags_@.subrange(3, self.tags_@.len() - 1)))
        }
    }

    /// The text this line renders to: the groups reassembled for a task,
    /// the original line for plain text.
    pub open spec fn encoded(self) -> Seq<char> {
        if self.is_todo {
            concat_groups(self.groups())
        } else {
            self.line_@
        }
    }
}

/// A status token `[c]` check at one position.
fn is_status_triple(v: &Vec<char>, i: usize) -> (r: bool)
    ensures
        r == status_at(v@, i as int),
{
    if i < v.len() && v.len() - i >= 3 {
        let c = v[i + 1];
        v[i] == '[' && v[i + 2] == ']' && (c == ' ' || c == '-' || c == 'x' || c == 'X'
            || c == 'd' || c == 'D')
    } else {
        false
    }
}

/// A trailing tag block check at one position.
fn is_tag_block(v: &Vec<char>, b: usize) -> (r: bool)
    ensures
        r == tag_block_at(v@, b as int),
{
    if b < v.len() && v.len() - b >= 5 {
        v[b] == '{' && v[b + 1] == 't' && v[b + 2] == ':' && v[v.len() - 1] == '}'
    } else {
        false
    }
}

impl VimTodo {
    /// Decodes one buffer line. A line matching the task grammar comes back
    /// with `is_todo` set and its groups cut out exactly; anything else is
    /// kept as plain text.
    #[verifier::rlimit(60)]
    pub fn new(line: String) -> (r: VimTodo)
        ensures
            r.wf(),
            r.line_@ == line@,
            r.is_todo <==> decode_spec(line@) is Some,
            r.is_todo ==> decode_spec(line@) == Some(r.groups()),
    {
        let ghost s = line@;
        let v = str_to_chars(line.as_str());
        let n = v.len();
        let mut lvl: usize = 0;
        while lvl < n && v[lvl] == '\t'
            invariant
                lvl <= n,
                n == s.len(),
                v@ == s,
                forall|k: int| 0 <= k < lvl ==> s[k] == '\t',
            decreases n - lvl,
        {
            lvl = lvl + 1;
        }
        proof {
            assert forall|k: int| 0 <= k < lvl implies (tab_pred())(s[k]) by {
                assert(s[k] == '\t');
            }
            if lvl < n {
                assert(!(tab_pred())(s[lvl as int]));
            }
            lemma_run_end_unique(s, 0, tab_pred(), lvl as int);
        }
        let mut bw: usize = lvl;
        while bw < n && ws_char(v[bw])
            invariant
                lvl <= bw <= n,
                n == s.len(),
                v@ == s,
                forall|k: int| lvl <= k < bw ==> is_ws_char(s[k]),
            decreases n - bw,
        {
            bw = bw + 1;
        }
        proof {
            lemma_run_end_unique(s, lvl as int, ws_pred(), bw as int);
        }
        if bw >= n || !(v[bw] == '-' || v[bw] == '*') {
            return VimTodo {
                is_todo: false,
                line_: line,
                level_: String::new(),
                fill0_: String::new(),
                code_: String::new(),
                fill1_: String::new(),
                status_: String::new(),
                fill2_: String::new(),
                todo_: String::new(),
                tags_: String::new(),
            };
        }
        let mut f0e: usize = bw + 1;
        if f0e < n && ws_char(v[f0e]) {
            f0e = f0e + 1;
        }
        let mut ce: usize = f0e;
        if f0e < n && v[f0e] == '%' {
            let mut d: usize = f0e + 1;
            while d < n && digit_char_test(v[d])
                invariant
                    f0e + 1 <= d <= n,
                    n == s.len(),
                    v@ == s,
                    forall|k: int| f0e + 1 <= k < d ==> is_digit_char(s[k]),
                decreases n - d,
            {
                d = d + 1;
            }
            proof {
                assert forall|k: int| f0e + 1 <= k < d implies (digit_pred())(s[k]) by {
                    assert(is_digit_char(s[k]));
                }
                if d < n {
                    assert(!(digit_pred())(s[d as int]));
                }
                lemma_run_end_unique(s, f0e + 1, digit_pred(), d as int);
            }
            if d > f0e + 1 && d < n && v[d] == '%' {
                ce = d + 1;
            }
        }
        proof {
            assert(ce as int == code_end(s, f0e as int));
        }
        let sp: usize;
        if is_status_triple(&v, ce) {
            sp = ce;
        } else if ce < n && is_status_triple(&v, ce + 1) {
            sp = ce + 1;
        } else {
            proof {
                assert(decode_cuts(s) is None);
            }
            return VimTodo {
                is_todo: false,
                line_: line,
                level_: String::new(),
                fill0_: String::new(),
                code_: String::new(),
                fill1_: String::new(),
                status_: String::new(),
                fill2_: String::new(),
                todo_: String::new(),
                tags_: String::new(),
            };
        }
        let se: usize = sp + 3;
        let mut w: usize = se;
        while w < n && ws_char(v[w])
            invariant
                se <= w <= n,
                n == s.len(),
                v@ == s,
                forall|k: int| se <= k < w ==> is_ws_char(s[k]),
            decreases n - w,
        {
            w = w + 1;
        }
        proof {
            lemma_run_end_unique(s, se as int, ws_pred(), w as int);
        }
        if w == se {
            return VimTodo {
                is_todo: false,
                line_: line,
                level_: String::new(),
                fill0_: String::new(),
                code_: String::new(),
                fill1_: String::new(),
                status_: String::new(),
                fill2_: String::new(),
                todo_: String::new(),
                tags_: String::new(),
            };
        }
        let ts: usize;
        let tg: usize;
        if w < n && !(v[w] == '{' || v[w] == '}') {
            let mut b: usize = w;
            while b < n && !(v[b] == '{' || v[b] == '}')
                invariant
                    w <= b <= n,
                    n == s.len(),
                    v@ == s,
                    forall|k: int| w <= k < b ==> !is_brace(s[k]),
                decreases n - b,
            {
                b = b + 1;
            }
            proof {
                assert forall|k: int| w <= k < b implies (not_brace_pred())(s[k]) by {
                    assert(!is_brace(s[k]));
                }
                if b < n {
                    assert(!(not_brace_pred())(s[b as int]));
                }
                lemma_run_end_unique(s, w as int, not_brace_pred(), b as int);
            }
            if b == n {
                ts = w;
                tg = n;
            } else if v[b] == '{' && is_tag_block(&v, b) {
                ts = w;
                tg = b;
            } else {
                return VimTodo {
                    is_todo: false,
                    line_: line,
                    level_: String::new(),
                    fill0_: String::new(),
                    code_: String::new(),
                    fill1_: String::new(),
                    status_: String::new(),
                    fill2_: String::new(),
                    todo_: String::new(),
                    tags_: String::new(),
                };
            }
        } else if w == n {
            if w - se >= 2 {
                ts = w - 1;
                tg = n;
            } else {
                return VimTodo {
                    is_todo: false,
                    line_: line,
                    level_: String::new(),
                    fill0_: String::new(),
                    code_: String::new(),
                    fill1_: String::new(),
                    status_: String::new(),
                    fill2_: String::new(),
                    todo_: String::new(),
                    tags_: String::new(),
                };
            }
        } else {
            if v[w] == '{' && is_tag_block(&v, w) && w - se >= 2 {
                ts = w - 1;
                tg = w;
            } else {
                return VimTodo {
                    is_todo: false,
                    line_: line,
                    level_: String::new(),
                    fill0_: String::new(),
                    code_: String::new(),
                    fill1_: String::new(),
                    status_: String::new(),
                    fill2_: String::new(),
                    todo_: String::new(),
                    tags_: String::new(),
                };
            }
        }
        let ghost cuts = Cuts {
            lvl: lvl as int,
            f0e: f0e as int,
            ce: ce as int,
            sp: sp as int,
            ts: ts as int,
            tg: tg as int,
        };
        proof {
            assert(decode_cuts(s) == Some(cuts));
            lemma_cuts_shape(s);
        }
        let st = line.as_str();
        let level_ = st.substring_char(0, lvl).to_owned();
        let fill0_ = st.substring_char(lvl, f0e).to_owned();
        let code_ = st.substring_char(f0e, ce).to_owned();
        let fill1_ = st.substring_char(ce, sp).to_owned();
        let status_ = st.substring_char(sp, sp + 3).to_owned();
        let fill2_ = st.substring_char(sp + 3, ts).to_owned();
        let todo_ = st.substring_char(ts, tg).to_owned();
        let tags_ = st.substring_char(tg, n).to_owned();
        let r = VimTodo {
            is_todo: true,
            line_: line,
            level_,
            fill0_,
            code_,
            fill1_,
            status_,
            fill2_,
            todo_,
            tags_,
        };
        proof {
            assert(r.groups() == groups_of(s, cuts));
        }
        r
    }
}

/// The status token that a `flags` column value renders to; only the
/// open, in-progress and done codes have a token.
pub open spec fn status_token_of_flag(f: int) -> Seq<char> {
    if f == 1 {
        seq!['[', ' ', ']']
    } else if f == 2 {
        seq!['[', '-', ']']
    } else {
        seq!['[', 'x', ']']
    }
}

impl VimTodo {
    /// The trimmed task text.
    pub fn todo(&self) -> (r: String)
        ensures
            r@ == self.text_spec(),
    {
        crate::tags::trim_string(self.todo_.as_str())
    }

    /// Replaces the task text; every other group is kept.
    pub fn set_todo(&mut self, todo: String)
        requires
            old(self).wf(),
        ensures
            final(self).wf(),
            final(self).todo_@ == todo@,
            final(self).is_todo == old(self).is_todo,
            final(self).line_ == old(self).line_,
            final(self).level_ == old(self).level_,
            final(self).fill0_ == old(self).fill0_,
            final(self).code_ == old(self).code_,
            final(self).fill1_ == old(self).fill1_,
            final(self).status_ == old(self).status_,
            final(self).fill2_ == old(self).fill2_,
            final(self).tags_ == old(self).tags_,
    {
        self.todo_ = todo;
    }

    /// The status this line carries; plain text reads as `Invalid`.
    pub fn status(&self) -> (r: TodoStatus)
        requires
            self.wf(),
        ensures
            r == self.status_spec(),
    {
        if !self.is_todo {
            return TodoStatus::Invalid;
        }
        let c = self.status_.as_str().get_char(1);
        if c == ' ' {
            TodoStatus::Open
        } else if c == '-' {
            TodoStatus::InProgress
        } else if c == 'x' || c == 'X' {
            TodoStatus::Done
        } else if c == 'd' || c == 'D' {
            TodoStatus::ToDelete
        } else {
            TodoStatus::Invalid
        }
    }

    /// Writes the status token for a stored `flags` value; only the open,
    /// in-progress and done codes can be rendered back into a line.
    pub fn set_status(&mut self, value: i32)
        requires
            old(self).wf(),
            value == 1 || value == 2 || value == 4,
        ensures
            final(self).wf(),
            final(self).status_@ == status_token_of_flag(value as int),
            final(self).is_todo == old(self).is_todo,
            final(self).line_ == old(self).line_,
            final(self).level_ == old(self).level_,
            final(self).fill0_ == old(self).fill0_,
            final(self).code_ == old(self).code_,
            final(self).fill1_ == old(self).fill1_,
            final(self).fill2_ == old(self).fill2_,
            final(self).todo_ == old(self).todo_,
            final(self).tags_ == old(self).tags_,
    {
        if value == 1 {
            self.status_ = String::from_str("[ ]");
            proof {
                reveal_strlit("[ ]");
                assert(self.status_@ =~= status_token_of_flag(value as int));
            }
        } else if value == 2 {
            self.status_ = String::from_str("[-]");
            proof {
                reveal_strlit("[-]");
                assert(self.status_@ =~= status_token_of_flag(value as int));
            }
        } else {
            self.status_ = String::from_str("[x]");
            proof {
                reveal_strlit("[x]");
                assert(self.status_@ =~= status_token_of_flag(value as int));
            }
        }
    }

    /// The tag list, canonicalized: trimmed, no empty elements, sorted
    /// ascending.
    pub fn tags(&self) -> (r: Vec<String>)
        requires
            self.wf(),
            self.is_todo || self.tags_@.len() == 0,
        ensures
            r.deep_view() == self.tags_list(),
    {
        if self.tags_.as_str().is_empty() {
            let r: Vec<String> = Vec::new();
            proof {
                assert(r.deep_view() =~= self.tags_list());
            }
            return r;
        }
        let len = self.tags_.as_str().unicode_len();
        let inner = self.tags_.as_str().substring_char(3, len - 1);
        let parts = split_commas(inner);
        normalize_strings(parts)
    }

    /// Replaces the tag block with the canonical form of a raw
    /// comma-delimited blob; an empty result renders no block at all.
    pub fn set_tags(&mut self, tags: String)
        requires
            old(self).wf(),
        ensures
            final(self).wf(),
            final(self).tags_@ == tags_block_spec(normalize_spec(split_commas_spec(tags@))),
            final(self).is_todo == old(self).is_todo,
            final(self).line_ == old(self).line_,
            final(self).level_ == old(self).level_,
            final(self).fill0_ == old(self).fill0_,
            final(self).code_ == old(self).code_,
            final(self).fill1_ == old(self).fill1_,
            final(self).status_ == old(self).status_,
            final(self).fill2_ == old(self).fill2_,
            final(self).todo_ == old(self).todo_,
    {
        let parts = split_commas(tags.as_str());
        let norm = normalize_strings(parts);
        let block = tags_to_block(&norm);
        proof {
            let nm = normalize_spec(split_commas_spec(tags@));
            if nm.len() > 0 {
                crate::tags::lemma_normalize_props(split_commas_spec(tags@));
                crate::tags::lemma_join_nonempty(nm);
                let blk = tags_block_spec(nm);
                assert(blk[blk.len() - 1] == '}');
            }
        }
        self.tags_ = block;
    }

    /// The storage form of this line's tags.
    pub fn tags_db_formatted(&self) -> (r: String)
        requires
            self.wf(),
            self.is_todo || self.tags_@.len() == 0,
        ensures
            r@ == storage_tags_spec(self.tags_list()),
    {
        let ts = self.tags();
        tags_to_storage(&ts)
    }

    /// The digits of the id token, empty while no id is assigned.
    pub fn code(&self) -> (r: String)
        requires
            self.wf(),
            self.is_todo || self.code_@.len() == 0,
        ensures
            r@ == self.code_digits(),
    {
        if self.code_.as_str().is_empty() {
            let r = String::new();
            proof {
                assert(r@ =~= self.code_digits());
            }
            return r;
        }
        let len = self.code_.as_str().unicode_len();
        self.code_.as_str().substring_char(1, len - 1).to_owned()
    }

    /// Assigns an id token and canonicalizes the bullet around it, so that
    /// the line renders as `-%id% [.] ...`.
    pub fn set_code(&mut self, code: i32)
        requires
            old(self).wf(),
            0 <= code,
        ensures
            final(self).wf(),
            final(self).code_@ == seq!['%'] + dec_str(code as nat) + seq!['%'],
            final(self).code_digits() == dec_str(code as nat),
            final(self).has_code(),
            final(self).fill0_@ == seq!['-'],
            final(self).fill1_@ == seq![' '],
            final(self).is_todo == old(self).is_todo,
            final(self).line_ == old(self).line_,
            final(self).level_ == old(self).level_,
            final(self).status_ == old(self).status_,
            final(self).fill2_ == old(self).fill2_,
            final(self).todo_ == old(self).todo_,
            final(self).tags_ == old(self).tags_,
    {
        let mut cs = String::new();
        cs.append("%");
        let digits = u64_to_dec(code as u64);
        cs.append(digits.as_str());
        cs.append("%");
        proof {
            reveal_strlit("%");
            reveal_strlit("-");
            reveal_strlit(" ");
            crate::chars::lemma_dec_str_digits(code as nat);
            assert(cs@ =~= seq!['%'] + dec_str(code as nat) + seq!['%']);
        }
        self.code_ = cs;
        self.fill0_ = String::from_str("-");
        self.fill1_ = String::from_str(" ");
        proof {
            assert(self.fill0_@ =~= seq!['-']);
            assert(self.fill1_@ =~= seq![' ']);
            assert(self.code_digits() =~= dec_str(code as nat));
        }
    }

    /// Renders the line: the eight groups back to back for a task, the
    /// original text for plain text.
    pub fn line(&self) -> (r: String)
        ensures
            r@ == self.encoded(),
    {
        if !self.is_todo {
            return self.line_.clone();
        }
        let mut out = String::new();
        out.append(self.level_.as_str());
        out.append(self.fill0_.as_str());
        out.append(self.code_.as_str());
        out.append(self.fill1_.as_str());
        out.append(self.status_.as_str());
        out.append(self.fill2_.as_str());
        out.append(self.todo_.as_str());
        out.append(self.tags_.as_str());
        proof {
            assert(out@ =~= self.encoded());
        }
        out
    }

    /// Rebuilds a canonical line from a stored record: `-%id% [.] text`
    /// with the record's tags as the block. Only records whose `flags`
    /// value has a status token can be rendered.
    pub fn from(todo: Todo) -> (r: VimTodo)
        requires
            0 <= todo.id,
            todo.flags == 1 || todo.flags == 2 || todo.flags == 4,
        ensures
            r.wf(),
            r.is_todo,
            r.level_@ == Seq::<char>::empty(),
            r.fill0_@ == seq!['-'],
            r.code_digits() == dec_str(todo.id as nat),
            r.has_code(),
            r.fill1_@ == seq![' '],
            r.status_@ == status_token_of_flag(todo.flags as int),
            r.fill2_@ == seq![' '],
            r.todo_@ == todo.todo@,
            r.tags_@ == tags_block_spec(normalize_spec(split_commas_spec(todo.tags@))),
    {
        let mut vt = VimTodo {
            is_todo: true,
            line_: String::new(),
            level_: String::new(),
            fill0_: String::new(),
            code_: String::new(),
            fill1_: String::new(),
            status_: String::from_str("[ ]"),
            fill2_: String::from_str(" "),
            todo_: todo.todo,
            tags_: String::new(),
        };
        proof {
            reveal_strlit("[ ]");
            reveal_strlit(" ");
            assert(vt.status_@ =~= seq!['[', ' ', ']']);
            assert(vt.fill2_@ =~= seq![' ']);
        }
        vt.set_code(todo.id);
        vt.set_status(todo.flags);
        vt.set_tags(todo.tags);
        vt
    }
}

} // verus!
