//! Package names and the requirements that mention them.

use crate::text::chars_of;
use std::str::FromStr;
use vstd::prelude::*;

verus! {

/// A character that may stand between the words of a package name.
pub open spec fn is_separator(c: char) -> bool {
    c == '-' || c == '_' || c == '.'
}

/// An ASCII letter in lower case; any other character as it is.
pub open spec fn lowered(c: char) -> char {
    if 'A' <= c <= 'Z' {
        (c as int + 32) as char
    } else {
        c
    }
}

/// PEP 503 name normalization: lowercase, and each run of `-_.` collapses to one `-`.
pub open spec fn normalized(name: Seq<char>) -> Seq<char>
    decreases name.len(),
{
    if name.len() == 0 {
        Seq::empty()
    } else {
        let before = normalized(name.drop_last());
        let c = name.last();
        if !is_separator(c) {
            before.push(lowered(c))
        } else if name.len() > 1 && is_separator(name[name.len() - 2]) {
            before
        } else {
            before.push('-')
        }
    }
}

fn lower(c: char) -> (r: char)
    ensures
        r == lowered(c),
{
    if 'A' <= c && c <= 'Z' {
        ((c as u32 + 32) as u8) as char
    } else {
        c
    }
}

/// PEP 503 name normalization: lowercase, runs of `-_.` collapse to `-`.
pub fn normalize(name: &str) -> (id: String)
    ensures
        id@ == normalized(name@),
{
    let chars = chars_of(name);
    let mut out = String::new();
    let mut prev_sep = false;
    let mut i: usize = 0;
    while i < chars.len()
        invariant
            i <= chars.len(),
            chars@ == name@,
            prev_sep == (i > 0 && is_separator(name@[i - 1])),
            out@ == normalized(name@.take(i as int)),
        decreases chars.len() - i,
    {
        let c = chars[i];
        proof {
            let next = name@.take(i + 1);
            assert(next.drop_last() =~= name@.take(i as int));
            assert(next.last() == c);
            assert(i > 0 ==> next[next.len() - 2] == name@[i - 1]);
        }
        if separator(c) {
            if !prev_sep {
                out.push('-');
            }
            prev_sep = true;
        } else {
            out.push(lower(c));
            prev_sep = false;
        }
        i += 1;
    }
    proof {
        assert(name@.take(i as int) =~= name@);
    }
    out
}

/// Normalizing a normalized name changes nothing.
pub proof fn law_normalize_idempotent(name: Seq<char>)
    ensures
        normalized(normalized(name)) == normalized(name),
    decreases name.len(),
{
    if name.len() > 0 {
        let head = name.drop_last();
        let before = normalized(head);
        let c = name.last();
        law_normalize_idempotent(head);
        assert(head.len() > 0 ==> head.last() == name[name.len() - 2]);
        let after = normalized(name);
        if after != before {
            assert(after.drop_last() =~= before);
        }
    }
}

/// A character with the Unicode property White_Space.
pub open spec fn is_space(c: char) -> bool {
    ||| '\u{9}' <= c <= '\u{d}'
    ||| c == ' '
    ||| c == '\u{85}'
    ||| c == '\u{a0}'
    ||| c == '\u{1680}'
    ||| '\u{2000}' <= c <= '\u{200a}'
    ||| c == '\u{2028}'
    ||| c == '\u{2029}'
    ||| c == '\u{202f}'
    ||| c == '\u{205f}'
    ||| c == '\u{3000}'
}

pub open spec fn is_digit(c: char) -> bool {
    '0' <= c <= '9'
}

pub open spec fn is_alphanumeric(c: char) -> bool {
    'a' <= c <= 'z' || 'A' <= c <= 'Z' || is_digit(c)
}

/// A character that may stand in a package name.
pub open spec fn is_name_char(c: char) -> bool {
    is_alphanumeric(c) || is_separator(c)
}

/// The text behind the white space at its start.
pub open spec fn skip_spaces(s: Seq<char>) -> Seq<char>
    decreases s.len(),
{
    if s.len() > 0 && is_space(s[0]) {
        skip_spaces(s.drop_first())
    } else {
        s
    }
}

/// How many characters at the start may stand in a package name.
pub open spec fn name_run(s: Seq<char>) -> nat
    decreases s.len(),
{
    if s.len() > 0 && is_name_char(s[0]) {
        1 + name_run(s.drop_first())
    } else {
        0
    }
}

/// The package name at the start of a requirement; empty if there is none.
pub open spec fn leading_name(spec: Seq<char>) -> Seq<char> {
    let s = skip_spaces(spec);
    if s.len() > 0 && is_alphanumeric(s[0]) {
        s.take(name_run(s) as int)
    } else {
        Seq::empty()
    }
}

pub proof fn lemma_skip_spaces(s: Seq<char>)
    ensures
        skip_spaces(s).len() <= s.len(),
    decreases s.len(),
{
    if s.len() > 0 && is_space(s[0]) {
        lemma_skip_spaces(s.drop_first());
    }
}

pub proof fn lemma_name_run(s: Seq<char>)
    ensures
        name_run(s) <= s.len(),
        s.len() > 0 && is_name_char(s[0]) ==> name_run(s) > 0,
        forall|i: int| 0 <= i < name_run(s) ==> is_name_char(#[trigger] s[i]),
    decreases s.len(),
{
    if s.len() > 0 && is_name_char(s[0]) {
        let t = s.drop_first();
        lemma_name_run(t);
        assert forall|i: int| 0 <= i < name_run(s) implies is_name_char(#[trigger] s[i]) by {
            if i > 0 {
                assert(is_name_char(t[i - 1]));
            }
        }
    }
}

/// No extra that the list, from here on, is read as far as ends in a separator. `first` says
/// whether the text stands right behind the opening bracket.
pub open spec fn extras_end_well(s: Seq<char>, first: bool) -> bool
    decreases s.len(),
{
    if s.len() == 0 || s[0] == ']' || (s[0] == ',') == first {
        true
    } else {
        let t = skip_spaces(if first {
            s
        } else {
            s.drop_first()
        });
        if t.len() == 0 || !is_alphanumeric(t[0]) {
            true
        } else {
            let n = name_run(t);
            let rest = t.skip(n as int);
            proof {
                lemma_skip_spaces(if first {
                    s
                } else {
                    s.drop_first()
                });
                lemma_name_run(t);
                lemma_skip_spaces(rest);
            }
            if rest.len() > 0 && rest[0] != ',' && rest[0] != ']' && !is_space(rest[0]) {
                true
            } else {
                !is_separator(t[n - 1]) && extras_end_well(skip_spaces(rest), false)
            }
        }
    }
}

/// The text starts with `head`.
pub open spec fn begins(s: Seq<char>, head: Seq<char>) -> bool {
    head.is_prefix_of(s)
}

/// The name of an environment marker whose value is text, or the start of one.
pub open spec fn begins_text_marker(s: Seq<char>) -> bool {
    ||| begins(s, "os"@)
    ||| begins(s, "platform"@)
    ||| begins(s, "sys"@)
    ||| begins(s, "implementation_n"@)
    ||| begins(s, "python_i"@)
}

/// Right behind a quotation mark: `~=` and then a marker whose value is text.
pub open spec fn compares_text_by_tilde(s: Seq<char>) -> bool {
    let t = skip_spaces(s);
    t.len() >= 2 && t[0] == '~' && t[1] == '=' && begins_text_marker(skip_spaces(t.skip(2)))
}

/// How often `c` occurs.
pub open spec fn occurrences(s: Seq<char>, c: char) -> nat
    decreases s.len(),
{
    if s.len() == 0 {
        0
    } else {
        occurrences(s.drop_last(), c) + (if s.last() == c {
            1nat
        } else {
            0
        })
    }
}

pub open spec fn is_mark(c: char) -> bool {
    c == '\'' || c == '"'
}

/// A character of which comparisons are made.
pub open spec fn is_operator(c: char) -> bool {
    c == '=' || c == '<' || c == '>' || c == '~' || c == '!'
}

/// The place of the quotation mark that is open at the end of the text.
pub open spec fn open_mark(s: Seq<char>) -> Option<int>
    decreases s.len(),
{
    if s.len() == 0 {
        None
    } else {
        match open_mark(s.drop_last()) {
            Some(q) => if s.last() == s[q] {
                None
            } else {
                Some(q)
            },
            None => if is_mark(s.last()) {
                Some(s.len() - 1)
            } else {
                None
            },
        }
    }
}

/// The text before the white space at its end.
pub open spec fn trim_end(s: Seq<char>) -> Seq<char>
    decreases s.len(),
{
    if s.len() > 0 && is_space(s.last()) {
        trim_end(s.drop_last())
    } else {
        s
    }
}

/// Before this place stands a comparison operator, and then white space.
pub open spec fn behind_operator(s: Seq<char>, q: int) -> bool {
    &&& q > 0
    &&& is_space(s[q - 1])
    &&& trim_end(s.take(q)).len() > 0
    &&& is_operator(trim_end(s.take(q)).last())
}

/// What a marker may hold at each place: not the largest number of 64 bits; behind a quotation
/// mark no `~=` with a marker whose value is text; and characters other than ASCII only in a
/// quoted text that stands, after white space, behind a comparison operator.
pub open spec fn place_is_safe(s: Seq<char>, i: int) -> bool {
    &&& !begins(s.skip(i), "18446744073709551615"@)
    &&& is_mark(s[i]) ==> !compares_text_by_tilde(s.skip(i + 1))
    &&& s[i] > '\u{7f}' ==> (open_mark(s.take(i)) matches Some(q) && behind_operator(s, q))
}

/// The most parentheses that a marker may open.
pub const MAX_PARENTHESES: usize = 100;

/// The most quotation marks that a marker may hold, that is twice the most comparisons.
pub const MAX_MARKS: usize = 64;

/// The text behind a semicolon can be parsed as a marker, whether it is one or not. The parser
/// works its way down one level for each parenthesis and for each comparison.
pub open spec fn marker_is_safe(s: Seq<char>) -> bool {
    &&& forall|i: int| 0 <= i < s.len() ==> #[trigger] place_is_safe(s, i)
    &&& occurrences(s, '(') <= MAX_PARENTHESES
    &&& occurrences(s, '\'') + occurrences(s, '"') <= MAX_MARKS
}

/// The text refers to `${PROJECT_ROOT}`, which stands for the working directory.
pub open spec fn mentions_project_root(spec: Seq<char>) -> bool {
    exists|i: int| 0 <= i < spec.len() && begins(#[trigger] spec.skip(i), "${PROJECT_ROOT}"@)
}

/// A text that can be handed to the requirement parser, whether it is a requirement or not. Left
/// out are texts on which the parser may give up altogether: one that refers to the working
/// directory, which may be gone; a package or extra name that ends in a separator where more
/// follows; and what `marker_is_safe` excludes behind a semicolon.
pub open spec fn safe_to_parse(spec: Seq<char>) -> bool {
    let s = skip_spaces(spec);
    let n = leading_name(spec).len();
    &&& !mentions_project_root(spec)
    &&& n == 0 || {
        &&& n == s.len() || !is_separator(s[n - 1])
        &&& ({
            let t = skip_spaces(s.skip(n as int));
            t.len() > 0 && t[0] == '[' ==> extras_end_well(skip_spaces(t.drop_first()), true)
        })
        &&& forall|i: int|
            0 <= i < spec.len() && #[trigger] spec[i] == ';' ==> marker_is_safe(spec.skip(i + 1))
    }
}

fn space(c: char) -> (yes: bool)
    ensures
        yes == is_space(c),
{
    ('\u{9}' <= c && c <= '\u{d}') || c == ' ' || c == '\u{85}' || c == '\u{a0}' || c == '\u{1680}'
        || ('\u{2000}' <= c && c <= '\u{200a}') || c == '\u{2028}' || c == '\u{2029}' || c
        == '\u{202f}' || c == '\u{205f}' || c == '\u{3000}'
}

fn alphanumeric(c: char) -> (yes: bool)
    ensures
        yes == is_alphanumeric(c),
{
    ('a' <= c && c <= 'z') || ('A' <= c && c <= 'Z') || ('0' <= c && c <= '9')
}

fn separator(c: char) -> (yes: bool)
    ensures
        yes == is_separator(c),
{
    c == '-' || c == '_' || c == '.'
}

/// The first place from `start` on without white space.
fn past_spaces(chars: &Vec<char>, start: usize) -> (end: usize)
    requires
        start <= chars@.len(),
    ensures
        start <= end <= chars@.len(),
        chars@.skip(end as int) == skip_spaces(chars@.skip(start as int)),
{
    let mut i: usize = start;
    while i < chars.len() && space(chars[i])
        invariant
            start <= i <= chars@.len(),
            skip_spaces(chars@.skip(start as int)) == skip_spaces(chars@.skip(i as int)),
        decreases chars.len() - i,
    {
        proof {
            assert(chars@.skip(i as int).drop_first() =~= chars@.skip(i + 1));
        }
        i += 1;
    }
    i
}

/// The first place from `start` on that may not stand in a name.
fn past_name(chars: &Vec<char>, start: usize) -> (end: usize)
    requires
        start <= chars@.len(),
    ensures
        start <= end <= chars@.len(),
        end - start == name_run(chars@.skip(start as int)),
{
    let mut i: usize = start;
    while i < chars.len() && (alphanumeric(chars[i]) || separator(chars[i]))
        invariant
            start <= i <= chars@.len(),
            name_run(chars@.skip(start as int)) == i - start + name_run(chars@.skip(i as int)),
        decreases chars.len() - i,
    {
        proof {
            assert(chars@.skip(i as int).drop_first() =~= chars@.skip(i + 1));
        }
        i += 1;
    }
    i
}

fn has_head(chars: &Vec<char>, start: usize, head: &str) -> (yes: bool)
    requires
        start <= chars@.len(),
    ensures
        yes == begins(chars@.skip(start as int), head@),
{
    let head_chars = chars_of(head);
    let ghost s = chars@.skip(start as int);
    if head_chars.len() > chars.len() - start {
        return false;
    }
    let mut i: usize = 0;
    while i < head_chars.len()
        invariant
            s == chars@.skip(start as int),
            head_chars@ == head@,
            start <= chars@.len(),
            i <= head_chars.len() <= chars.len() - start,
            forall|k: int| 0 <= k < i ==> #[trigger] head@[k] == s[k],
        decreases head_chars.len() - i,
    {
        if head_chars[i] != chars[start + i] {
            proof {
                assert(s.subrange(0, head@.len() as int)[i as int] != head@[i as int]);
            }
            return false;
        }
        i += 1;
    }
    proof {
        assert(head@ =~= s.subrange(0, head@.len() as int));
    }
    true
}

fn compares_by_tilde(chars: &Vec<char>, start: usize) -> (yes: bool)
    requires
        start <= chars@.len(),
    ensures
        yes == compares_text_by_tilde(chars@.skip(start as int)),
{
    let i = past_spaces(chars, start);
    let ghost t = chars@.skip(i as int);
    if chars.len() - i < 2 || chars[i] != '~' || chars[i + 1] != '=' {
        return false;
    }
    proof {
        assert(t.skip(2) =~= chars@.skip(i + 2));
    }
    let k = past_spaces(chars, i + 2);
    has_head(chars, k, "os") || has_head(chars, k, "platform") || has_head(chars, k, "sys")
        || has_head(chars, k, "implementation_n") || has_head(chars, k, "python_i")
}

fn extras_fine(chars: &Vec<char>, start: usize, first: bool) -> (yes: bool)
    requires
        start <= chars@.len(),
    ensures
        yes == extras_end_well(chars@.skip(start as int), first),
    decreases chars.len() - start,
{
    let ghost s = chars@.skip(start as int);
    if start == chars.len() || chars[start] == ']' || (chars[start] == ',') == first {
        return true;
    }
    proof {
        assert(s.drop_first() =~= chars@.skip(start + 1));
    }
    let i = past_spaces(
        chars,
        if first {
            start
        } else {
            start + 1
        },
    );
    let ghost t = chars@.skip(i as int);
    if i == chars.len() || !alphanumeric(chars[i]) {
        return true;
    }
    let end = past_name(chars, i);
    proof {
        lemma_name_run(t);
        assert(t.skip(end - i) =~= chars@.skip(end as int));
    }
    if end < chars.len() && chars[end] != ',' && chars[end] != ']' && !space(chars[end]) {
        return true;
    }
    if separator(chars[end - 1]) {
        return false;
    }
    let next = past_spaces(chars, end);
    extras_fine(chars, next, false)
}

fn mark(c: char) -> (yes: bool)
    ensures
        yes == is_mark(c),
{
    c == '\'' || c == '"'
}

fn operator(c: char) -> (yes: bool)
    ensures
        yes == is_operator(c),
{
    c == '=' || c == '<' || c == '>' || c == '~' || c == '!'
}

/// Whether a comparison operator, and then white space, stands before the place.
fn stands_behind_operator(chars: &Vec<char>, q: usize) -> (yes: bool)
    requires
        q < chars@.len(),
    ensures
        yes == behind_operator(chars@, q as int),
{
    if q == 0 || !space(chars[q - 1]) {
        return false;
    }
    let mut end: usize = q;
    while end > 0 && space(chars[end - 1])
        invariant
            end <= q < chars@.len(),
            trim_end(chars@.take(end as int)) == trim_end(chars@.take(q as int)),
        decreases end,
    {
        proof {
            let head = chars@.take(end as int);
            assert(head.drop_last() =~= chars@.take(end - 1));
            assert(head.last() == chars@[end - 1]);
        }
        end -= 1;
    }
    proof {
        let head = chars@.take(end as int);
        assert(end > 0 ==> head.last() == chars@[end - 1]);
        assert(trim_end(head) == head);
    }
    end > 0 && operator(chars[end - 1])
}

/// Whether the text behind a semicolon can be parsed as a marker.
fn marker_fine(chars: &Vec<char>) -> (yes: bool)
    ensures
        yes == marker_is_safe(chars@),
{
    let mut open: Option<usize> = None;
    let mut parentheses: usize = 0;
    let mut marks: usize = 0;
    let mut i: usize = 0;
    while i < chars.len()
        invariant
            i <= chars.len(),
            match open {
                Some(q) => q < i && open_mark(chars@.take(i as int)) == Some(q as int),
                None => open_mark(chars@.take(i as int)) is None,
            },
            parentheses <= i,
            marks <= i,
            parentheses == occurrences(chars@.take(i as int), '('),
            marks == occurrences(chars@.take(i as int), '\'') + occurrences(
                chars@.take(i as int),
                '"',
            ),
            forall|k: int| 0 <= k < i ==> #[trigger] place_is_safe(chars@, k),
        decreases chars.len() - i,
    {
        let c = chars[i];
        let exposed = c > '\u{7f}' && match open {
            Some(q) => !stands_behind_operator(chars, q),
            None => true,
        };
        if exposed || has_head(chars, i, "18446744073709551615") || (mark(c) && compares_by_tilde(
            chars,
            i + 1,
        )) {
            proof {
                assert(!place_is_safe(chars@, i as int));
            }
            return false;
        }
        proof {
            let next = chars@.take(i + 1);
            assert(next.drop_last() =~= chars@.take(i as int));
            assert(next.last() == c);
        }
        if c == '(' {
            parentheses += 1;
        }
        if mark(c) {
            marks += 1;
        }
        open = match open {
            Some(q) => if c == chars[q] {
                None
            } else {
                Some(q)
            },
            None => if mark(c) {
                Some(i)
            } else {
                None
            },
        };
        i += 1;
    }
    proof {
        assert(chars@.take(i as int) =~= chars@);
    }
    parentheses <= MAX_PARENTHESES && marks <= MAX_MARKS
}

/// The characters from a place on.
fn tail(chars: &Vec<char>, start: usize) -> (rest: Vec<char>)
    requires
        start <= chars@.len(),
    ensures
        rest@ == chars@.skip(start as int),
{
    let mut rest: Vec<char> = Vec::new();
    let mut i: usize = start;
    while i < chars.len()
        invariant
            start <= i <= chars@.len(),
            rest@ == chars@.subrange(start as int, i as int),
        decreases chars.len() - i,
    {
        rest.push(chars[i]);
        proof {
            assert(rest@ =~= chars@.subrange(start as int, i + 1));
        }
        i += 1;
    }
    rest
}

/// Whether the text refers to `${PROJECT_ROOT}`.
fn names_project_root(chars: &Vec<char>) -> (yes: bool)
    ensures
        yes == mentions_project_root(chars@),
{
    let mut i: usize = 0;
    while i < chars.len()
        invariant
            i <= chars@.len(),
            forall|k: int|
                0 <= k < i ==> !begins(#[trigger] chars@.skip(k), "${PROJECT_ROOT}"@),
        decreases chars.len() - i,
    {
        if has_head(chars, i, "${PROJECT_ROOT}") {
            return true;
        }
        i += 1;
    }
    false
}

/// Whether a text can be handed to the requirement parser.
pub fn can_parse(spec: &str) -> (yes: bool)
    ensures
        yes == safe_to_parse(spec@),
{
    let chars = chars_of(spec);
    if names_project_root(&chars) {
        return false;
    }
    proof {
        assert(chars@.skip(0) =~= spec@);
    }
    let start = past_spaces(&chars, 0);
    let ghost s = chars@.skip(start as int);
    if start == chars.len() || !alphanumeric(chars[start]) {
        return true;
    }
    let end = past_name(&chars, start);
    proof {
        lemma_name_run(s);
        assert(leading_name(spec@).len() == end - start);
        assert(s.skip(end - start) =~= chars@.skip(end as int));
    }
    if end < chars.len() && separator(chars[end - 1]) {
        return false;
    }
    let open = past_spaces(&chars, end);
    if open < chars.len() && chars[open] == '[' {
        proof {
            assert(chars@.skip(open as int).drop_first() =~= chars@.skip(open + 1));
        }
        let inside = past_spaces(&chars, open + 1);
        if !extras_fine(&chars, inside, true) {
            return false;
        }
    }
    let mut i: usize = 0;
    while i < chars.len()
        invariant
            chars@ == spec@,
            i <= chars.len(),
            leading_name(spec@).len() > 0,
            forall|k: int|
                0 <= k < i && #[trigger] spec@[k] == ';' ==> marker_is_safe(spec@.skip(k + 1)),
        decreases chars.len() - i,
    {
        if chars[i] == ';' && !marker_fine(&tail(&chars, i + 1)) {
            proof {
                assert(spec@[i as int] == ';');
            }
            return false;
        }
        i += 1;
    }
    true
}

/// The text refers to an environment variable behind an `@`, that is in a place for a URL.
pub open spec fn mentions_variable(spec: Seq<char>) -> bool {
    exists|i: int, j: int|
        0 <= i && j == i + 1 && j < spec.len() && #[trigger] spec[i] == '$' && #[trigger] spec[j]
            == '{' && spec.take(i).contains('@')
}

/// A package name by itself, without a dot.
pub open spec fn is_bare_name(spec: Seq<char>) -> bool {
    &&& spec.len() > 0
    &&& is_alphanumeric(spec[0])
    &&& is_alphanumeric(spec.last())
    &&& forall|i: int| 0 <= i < spec.len() ==> is_name_char(#[trigger] spec[i]) && spec[i] != '.'
}

/// A package name by itself can be handed to the requirement parser.
pub proof fn law_bare_name_is_safe(name: Seq<char>)
    requires
        is_bare_name(name),
    ensures
        safe_to_parse(name),
        leading_name(name) == name,
{
    lemma_name_run_all(name);
    assert(skip_spaces(name) == name);
    assert(name.take(name.len() as int) =~= name);
    assert forall|i: int| 0 <= i < name.len() implies !begins(
        #[trigger] name.skip(i),
        "${PROJECT_ROOT}"@,
    ) by {
        let head = "${PROJECT_ROOT}"@;
        reveal_strlit("${PROJECT_ROOT}");
        assert(is_name_char(name[i]));
        if begins(name.skip(i), head) {
            assert(head[0] == name.skip(i).subrange(0, head.len() as int)[0]);
        }
    }
    assert(name.skip(name.len() as int) =~= Seq::<char>::empty());
    assert forall|i: int| 0 <= i < name.len() implies #[trigger] name[i] != ';' by {
        assert(is_name_char(name[i]));
    }
}

proof fn lemma_name_run_all(s: Seq<char>)
    requires
        forall|i: int| 0 <= i < s.len() ==> is_name_char(#[trigger] s[i]),
    ensures
        name_run(s) == s.len(),
    decreases s.len(),
{
    if s.len() > 0 {
        let t = s.drop_first();
        assert forall|i: int| 0 <= i < t.len() implies is_name_char(#[trigger] t[i]) by {
            assert(is_name_char(s[i + 1]));
        }
        lemma_name_run_all(t);
    }
}

/// Whether a text is a requirement by the grammar of PEP 508.
pub uninterp spec fn is_requirement(spec: Seq<char>) -> bool;

/// Calls `pep508_rs::Requirement::<VerbatimUrl>::from_str` and takes the package name out of the
/// requirement. Trusted: on a text that is `safe_to_parse` the parser returns; where it accepts,
/// the name is the one at the start of the text, normalized, and is not empty; whether it accepts
/// is a function of the text alone, here called `is_requirement`, unless the text refers to an
/// environment variable behind an `@`; and it accepts a package name by itself. Which other texts
/// it accepts is left unsaid; a path that stands in place of a URL is judged by the rules of Unix.
#[verifier::external_body]
fn parse_requirement(spec: &str) -> (name: Option<String>)
    requires
        safe_to_parse(spec@),
    ensures
        name matches Some(name) ==> leading_name(spec@).len() > 0 && name@ == normalized(
            leading_name(spec@),
        ),
        !mentions_variable(spec@) ==> name is Some == is_requirement(spec@),
        is_bare_name(spec@) ==> name is Some,
{
    match pep508_rs::Requirement::<pep508_rs::VerbatimUrl>::from_str(spec) {
        Ok(requirement) => Some(requirement.name.as_ref().to_string()),
        Err(_) => None,
    }
}

/// Extracts the bare package name from a PEP 508 requirement string, normalized.
pub fn requirement_name(spec: &str) -> (name: Option<String>)
    requires
        safe_to_parse(spec@),
    ensures
        name matches Some(name) ==> leading_name(spec@).len() > 0 && name@ == normalized(
            leading_name(spec@),
        ),
        !mentions_variable(spec@) ==> name is Some == is_requirement(spec@),
        is_bare_name(spec@) ==> name is Some,
{
    match parse_requirement(spec) {
        Some(name) => {
            proof {
                law_normalize_idempotent(leading_name(spec@));
            }
            Some(normalize(name.as_str()))
        },
        None => None,
    }
}

/// Characters between which normalization makes no difference.
spec fn interchangeable(a: char, b: char) -> bool {
    (is_separator(a) && is_separator(b)) || (!is_separator(a) && !is_separator(b) && lowered(a)
        == lowered(b))
}

proof fn lemma_interchangeable(a: Seq<char>, b: Seq<char>)
    requires
        a.len() == b.len(),
        forall|i: int| 0 <= i < a.len() ==> interchangeable(#[trigger] a[i], b[i]),
    ensures
        normalized(a) == normalized(b),
    decreases a.len(),
{
    if a.len() > 0 {
        let x = a.drop_last();
        let y = b.drop_last();
        assert forall|i: int| 0 <= i < x.len() implies interchangeable(#[trigger] x[i], y[i]) by {
            assert(interchangeable(a[i], b[i]));
        }
        lemma_interchangeable(x, y);
        assert(interchangeable(a[a.len() - 1], b[b.len() - 1]));
        if a.len() > 1 {
            assert(interchangeable(a[a.len() - 2], b[b.len() - 2]));
        }
    }
}

/// The case of an ASCII letter makes no difference to the normalized name.
pub proof fn law_case_makes_no_difference(name: Seq<char>, i: int)
    requires
        0 <= i < name.len(),
        'A' <= name[i] <= 'Z',
    ensures
        normalized(name.update(i, (name[i] as int + 32) as char)) == normalized(name),
{
    lemma_interchangeable(name.update(i, (name[i] as int + 32) as char), name);
}

/// Which of `-`, `_` and `.` separates the words makes no difference to the normalized name.
pub proof fn law_separators_are_equal(name: Seq<char>, i: int, c: char)
    requires
        0 <= i < name.len(),
        name[i] == '-' || name[i] == '_' || name[i] == '.',
        c == '-' || c == '_' || c == '.',
    ensures
        normalized(name.update(i, c)) == normalized(name),
{
    lemma_interchangeable(name.update(i, c), name);
}

/// How many separators stand side by side makes no difference to the normalized name.
pub proof fn law_runs_collapse(name: Seq<char>, i: int, c: char)
    requires
        0 <= i < name.len(),
        name[i] == '-' || name[i] == '_' || name[i] == '.',
        c == '-' || c == '_' || c == '.',
    ensures
        normalized(name.insert(i, c)) == normalized(name),
    decreases name.len(),
{
    let more = name.insert(i, c);
    if i == name.len() - 1 {
        let short = more.drop_last();
        assert(short =~= name.drop_last().push(c));
        assert(more[more.len() - 2] == c);
        assert(normalized(more) == normalized(short));
        assert(short =~= name.update(i, c));
        law_separators_are_equal(name, i, c);
    } else {
        let head = name.drop_last();
        assert(more.drop_last() =~= head.insert(i, c));
        assert(more[more.len() - 2] == name[name.len() - 2]);
        law_runs_collapse(head, i, c);
    }
}

/// A name without capitals, without `_` and `.`, and without two `-` side by side, is normalized.
/// With the three laws before it this says what the normalized name of every name is.
pub proof fn law_normalized_names_stay(name: Seq<char>)
    requires
        forall|i: int|
            0 <= i < name.len() ==> !('A' <= #[trigger] name[i] <= 'Z') && name[i] != '_' && name[i]
                != '.',
        forall|i: int, j: int|
            0 <= i && j == i + 1 && j < name.len() ==> !(#[trigger] name[i] == '-'
                && #[trigger] name[j] == '-'),
    ensures
        normalized(name) == name,
    decreases name.len(),
{
    if name.len() > 0 {
        let head = name.drop_last();
        assert forall|i: int| 0 <= i < head.len() implies !('A' <= #[trigger] head[i] <= 'Z')
            && head[i] != '_' && head[i] != '.' by {
            assert(head[i] == name[i]);
        }
        assert forall|i: int, j: int| 0 <= i && j == i + 1 && j < head.len() implies !(
        #[trigger] head[i] == '-' && #[trigger] head[j] == '-') by {
            assert(head[i] == name[i] && head[j] == name[j]);
        }
        law_normalized_names_stay(head);
        let c = name[name.len() - 1];
        if name.len() > 1 {
            assert(!(name[name.len() - 2] == '-' && c == '-'));
            assert(name[name.len() - 2] != '_' && name[name.len() - 2] != '.');
        }
        assert(head.push(c) =~= name);
    } else {
        assert(name =~= Seq::<char>::empty());
    }
}

/// A requirement is for the package whose name comes first: behind blanks, and as far as letters,
/// digits, `-`, `_` and `.` go.
pub proof fn law_name_comes_first(blanks: Seq<char>, name: Seq<char>, rest: Seq<char>)
    requires
        forall|i: int| 0 <= i < blanks.len() ==> #[trigger] blanks[i] == ' ' || blanks[i] == '\t',
        name.len() > 0,
        'a' <= name[0] <= 'z' || 'A' <= name[0] <= 'Z' || '0' <= name[0] <= '9',
        forall|i: int|
            0 <= i < name.len() ==> 'a' <= #[trigger] name[i] <= 'z' || 'A' <= name[i] <= 'Z'
                || '0' <= name[i] <= '9' || name[i] == '-' || name[i] == '_' || name[i] == '.',
        rest.len() > 0 ==> !('a' <= rest[0] <= 'z') && !('A' <= rest[0] <= 'Z') && !('0' <= rest[0]
            <= '9') && rest[0] != '-' && rest[0] != '_' && rest[0] != '.',
    ensures
        leading_name(blanks + name + rest) == name,
{
    lemma_blanks(blanks, name + rest);
    assert(blanks + name + rest =~= blanks + (name + rest));
    lemma_run_stops(name, rest);
    assert((name + rest)[0] == name[0]);
    assert((name + rest).take(name.len() as int) =~= name);
}

proof fn lemma_blanks(blanks: Seq<char>, s: Seq<char>)
    requires
        forall|i: int| 0 <= i < blanks.len() ==> #[trigger] blanks[i] == ' ' || blanks[i] == '\t',
        s.len() > 0,
        !is_space(s[0]),
    ensures
        skip_spaces(blanks + s) == s,
    decreases blanks.len(),
{
    if blanks.len() == 0 {
        assert(blanks + s =~= s);
    } else {
        let less = blanks.drop_first();
        assert(blanks[0] == ' ' || blanks[0] == '\t');
        assert((blanks + s).drop_first() =~= less + s);
        assert forall|i: int| 0 <= i < less.len() implies #[trigger] less[i] == ' ' || less[i]
            == '\t' by {
            assert(less[i] == blanks[i + 1]);
        }
        lemma_blanks(less, s);
    }
}

proof fn lemma_run_stops(name: Seq<char>, rest: Seq<char>)
    requires
        forall|i: int| 0 <= i < name.len() ==> is_name_char(#[trigger] name[i]),
        rest.len() > 0 ==> !is_name_char(rest[0]),
    ensures
        name_run(name + rest) == name.len(),
    decreases name.len(),
{
    if name.len() == 0 {
        assert(name + rest =~= rest);
    } else {
        let less = name.drop_first();
        assert((name + rest)[0] == name[0]);
        assert((name + rest).drop_first() =~= less + rest);
        assert forall|i: int| 0 <= i < less.len() implies is_name_char(#[trigger] less[i]) by {
            assert(less[i] == name[i + 1]);
        }
        lemma_run_stops(less, rest);
    }
}

/// Letters, digits and dashes between letters or digits are a package name by themselves.
pub proof fn law_words_are_a_bare_name(name: Seq<char>)
    requires
        name.len() > 0,
        name[0] != '-' && name[0] != '_',
        name[name.len() - 1] != '-' && name[name.len() - 1] != '_',
        forall|i: int|
            0 <= i < name.len() ==> 'a' <= #[trigger] name[i] <= 'z' || 'A' <= name[i] <= 'Z'
                || '0' <= name[i] <= '9' || name[i] == '-' || name[i] == '_',
    ensures
        is_bare_name(name),
        !mentions_variable(name),
{
}

/// Without an `@`, and without a `$`, no requirement rests on the environment.
pub proof fn law_environment_enters_urls_only(spec: Seq<char>)
    requires
        !spec.contains('@') || !spec.contains('$'),
    ensures
        !mentions_variable(spec),
{
    if mentions_variable(spec) {
        let (i, j) = choose|i: int, j: int|
            0 <= i && j == i + 1 && j < spec.len() && #[trigger] spec[i] == '$'
                && #[trigger] spec[j] == '{' && spec.take(i).contains('@');
        assert(spec.contains(spec[i]));
        let k = spec.take(i).index_of('@');
        assert(spec[k] == '@');
    }
}

/// A requirement without extras, markers and variables can be handed to the parser, whatever stands
/// behind its name, if the name ends in a letter or digit.
pub proof fn law_simple_requirements_are_safe(name: Seq<char>, rest: Seq<char>)
    requires
        name.len() > 0,
        'a' <= name[0] <= 'z' || 'A' <= name[0] <= 'Z' || '0' <= name[0] <= '9',
        name[name.len() - 1] != '-' && name[name.len() - 1] != '_' && name[name.len() - 1] != '.',
        forall|i: int|
            0 <= i < name.len() ==> 'a' <= #[trigger] name[i] <= 'z' || 'A' <= name[i] <= 'Z'
                || '0' <= name[i] <= '9' || name[i] == '-' || name[i] == '_' || name[i] == '.',
        rest.len() > 0 ==> !('a' <= rest[0] <= 'z') && !('A' <= rest[0] <= 'Z') && !('0' <= rest[0]
            <= '9') && rest[0] != '-' && rest[0] != '_' && rest[0] != '.',
        !rest.contains('[') && !rest.contains(';') && !rest.contains('$'),
    ensures
        safe_to_parse(name + rest),
{
    let spec = name + rest;
    let none = Seq::<char>::empty();
    law_name_comes_first(none, name, rest);
    assert(none + name + rest =~= spec);
    lemma_blanks(none, spec);
    assert(none + spec =~= spec);
    let tail = spec.skip(name.len() as int);
    assert(tail =~= rest);
    lemma_skip_spaces_part(rest);
    let t = skip_spaces(rest);
    if t.len() > 0 && t[0] == '[' {
        assert(rest.contains('['));
    }
    assert forall|i: int| 0 <= i < spec.len() implies #[trigger] spec[i] != ';' && spec[i]
        != '$' by {
        if i < name.len() {
            assert(spec[i] == name[i]);
        } else {
            assert(spec[i] == rest[i - name.len()]);
            assert(rest.contains(rest[i - name.len()]));
        }
    }
    assert forall|i: int| 0 <= i < spec.len() implies !begins(
        #[trigger] spec.skip(i),
        "${PROJECT_ROOT}"@,
    ) by {
        let head = "${PROJECT_ROOT}"@;
        reveal_strlit("${PROJECT_ROOT}");
        if begins(spec.skip(i), head) {
            assert(head[0] == spec.skip(i).subrange(0, head.len() as int)[0]);
            assert(spec[i] == '$');
        }
    }
}

proof fn lemma_skip_spaces_part(s: Seq<char>)
    ensures
        skip_spaces(s).len() > 0 ==> s.contains(skip_spaces(s)[0]),
    decreases s.len(),
{
    if s.len() > 0 && is_space(s[0]) {
        let t = s.drop_first();
        lemma_skip_spaces_part(t);
        if skip_spaces(t).len() > 0 {
            let k = t.index_of(skip_spaces(t)[0]);
            assert(s[k + 1] == t[k]);
        }
    } else if s.len() > 0 {
        assert(s.contains(s[0]));
    }
}

/// Characters are counted one by one.
pub proof fn law_occurrences_are_counted(a: Seq<char>, b: Seq<char>, c: char, d: char)
    ensures
        occurrences(a + b, c) == occurrences(a, c) + occurrences(b, c),
        occurrences(seq![d], c) == if c == d {
            1nat
        } else {
            0nat
        },
        occurrences(Seq::empty(), c) == 0,
    decreases b.len(),
{
    assert(seq![d].drop_last() =~= Seq::<char>::empty());
    assert(occurrences(seq![d].drop_last(), c) == 0);
    if b.len() == 0 {
        assert(a + b =~= a);
    } else {
        assert((a + b).drop_last() =~= a + b.drop_last());
        law_occurrences_are_counted(a, b.drop_last(), c, d);
    }
}

/// An ordinary marker can be handed to the parser: one in ASCII, without `~` and without the
/// largest number of 64 bits, that opens at most a hundred parentheses and holds at most 64
/// quotation marks.
pub proof fn law_ordinary_markers_are_safe(s: Seq<char>)
    requires
        forall|i: int| 0 <= i < s.len() ==> #[trigger] s[i] <= '\u{7f}' && s[i] != '~',
        forall|i: int|
            0 <= i < s.len() ==> !"18446744073709551615"@.is_prefix_of(#[trigger] s.skip(i)),
        occurrences(s, '(') <= 100,
        occurrences(s, '\'') + occurrences(s, '"') <= 64,
    ensures
        marker_is_safe(s),
{
    assert forall|i: int| 0 <= i < s.len() implies #[trigger] place_is_safe(s, i) by {
        assert(s[i] <= '\u{7f}');
        assert(!begins(s.skip(i), "18446744073709551615"@));
        let rest = s.skip(i + 1);
        let t = skip_spaces(rest);
        lemma_skip_spaces_part(rest);
        if t.len() > 0 {
            let k = rest.index_of(t[0]);
            assert(rest[k] == s[i + 1 + k]);
        }
    }
}

/// Text that mentions the working directory, as `${PROJECT_ROOT}`, is not handed to the parser.
pub proof fn law_working_directory_is_unsafe(spec: Seq<char>, i: int)
    requires
        0 <= i < spec.len(),
        "${PROJECT_ROOT}"@.is_prefix_of(spec.skip(i)),
    ensures
        !safe_to_parse(spec),
{
    assert(begins(spec.skip(i), "${PROJECT_ROOT}"@));
}

/// A name that ends in a separator is not handed to the parser where more follows.
pub proof fn law_open_names_are_unsafe(name: Seq<char>, rest: Seq<char>)
    requires
        name.len() > 0,
        'a' <= name[0] <= 'z' || 'A' <= name[0] <= 'Z' || '0' <= name[0] <= '9',
        name.last() == '-' || name.last() == '_' || name.last() == '.',
        forall|i: int|
            0 <= i < name.len() ==> 'a' <= #[trigger] name[i] <= 'z' || 'A' <= name[i] <= 'Z'
                || '0' <= name[i] <= '9' || name[i] == '-' || name[i] == '_' || name[i] == '.',
        rest.len() > 0,
        !('a' <= rest[0] <= 'z') && !('A' <= rest[0] <= 'Z') && !('0' <= rest[0] <= '9') && rest[0]
            != '-' && rest[0] != '_' && rest[0] != '.',
    ensures
        !safe_to_parse(name + rest),
{
    let none = Seq::<char>::empty();
    law_name_comes_first(none, name, rest);
    assert(none + name + rest =~= name + rest);
    lemma_blanks(none, name + rest);
    assert(none + (name + rest) =~= name + rest);
}

/// Behind a semicolon, what is unsafe in a marker makes the whole requirement unsafe: more than a
/// hundred parentheses, more than 64 quotation marks, or the largest number of 64 bits.
pub proof fn law_unsafe_markers(spec: Seq<char>, i: int, k: int)
    requires
        leading_name(spec).len() > 0,
        0 <= i < spec.len(),
        spec[i] == ';',
        occurrences(spec.skip(i + 1), '(') > 100 || occurrences(spec.skip(i + 1), '\'')
            + occurrences(spec.skip(i + 1), '"') > 64 || (0 <= k < spec.skip(i + 1).len()
            && "18446744073709551615"@.is_prefix_of(spec.skip(i + 1).skip(k))),
    ensures
        !safe_to_parse(spec),
{
    let marker = spec.skip(i + 1);
    if 0 <= k < marker.len() && "18446744073709551615"@.is_prefix_of(marker.skip(k)) {
        assert(begins(marker.skip(k), "18446744073709551615"@));
        assert(!place_is_safe(marker, k));
    }
    assert(!marker_is_safe(marker));
}

} // verus!
