//! Text: characters in and out of strings, order, joining and padding.

use crate::order::increasing;
use crate::order::law_first_difference_decides;
use crate::order::lemma_precedes_irreflexive;
use crate::order::lemma_precedes_strict_total;
use crate::order::lemma_precedes_transitive;
use crate::order::precedes;
use crate::order::strict_total;
use vstd::prelude::*;
use vstd::utf8::encode_utf8;

verus! {

/// `String::push` appends one character to the end of the string.
pub assume_specification[ String::push ](s: &mut String, c: char)
    ensures
        final(s)@ == old(s)@.push(c),
;

/// The characters of a string, in order.
pub fn chars_of(s: &str) -> (chars: Vec<char>)
    ensures
        chars@ == s@,
{
    let mut chars: Vec<char> = Vec::new();
    for c in it: s.chars()
        invariant
            it.seq() == s@,
            chars@ == s@.take(it.index() as int),
    {
        chars.push(c);
        proof {
            assert(s@.take(it.index() as int + 1) =~= s@.take(it.index() as int).push(c));
        }
    }
    proof {
        assert(s@.take(s@.len() as int) =~= s@);
    }
    chars
}

/// What each string of a list holds.
pub open spec fn texts(list: Seq<String>) -> Seq<Seq<char>> {
    Seq::new(list.len(), |i: int| list[i]@)
}

/// A copy of a list of strings.
pub fn copy_texts(list: &Vec<String>) -> (copy: Vec<String>)
    ensures
        copy@ == list@,
{
    let mut copy: Vec<String> = Vec::new();
    let mut i: usize = 0;
    while i < list.len()
        invariant
            i <= list.len(),
            copy@ == list@.take(i as int),
        decreases list.len() - i,
    {
        copy.push(list[i].clone());
        proof {
            assert(list@.take(i + 1) =~= list@.take(i as int).push(list@[i as int]));
        }
        i += 1;
    }
    proof {
        assert(list@.take(i as int) =~= list@);
    }
    copy
}

/// The order of strings: by Unicode code point, place by place.
pub open spec fn text_less() -> spec_fn(Seq<char>, Seq<char>) -> bool {
    |a: Seq<char>, b: Seq<char>| precedes(a, b, |x: char, y: char| x < y)
}

/// Listed in increasing order, without repetition.
pub open spec fn sorted_texts(s: Seq<Seq<char>>) -> bool {
    increasing(s, text_less())
}

pub proof fn lemma_text_order()
    ensures
        strict_total(text_less()),
{
    let less = |x: char, y: char| x < y;
    lemma_precedes_strict_total(less);
}

/// How one value stands to another.
#[derive(Clone, Copy, PartialEq, Eq, Structural, Debug)]
pub enum Rank {
    Before,
    Same,
    After,
}

/// Ranks two strings by code point.
pub fn rank_texts(a: &str, b: &str) -> (rank: Rank)
    ensures
        rank == Rank::Before <==> text_less()(a@, b@),
        rank == Rank::Same <==> a@ == b@,
        rank == Rank::After <==> text_less()(b@, a@),
{
    let x = chars_of(a);
    let y = chars_of(b);
    let ghost less = |x: char, y: char| x < y;
    let mut i: usize = 0;
    proof {
        lemma_text_order();
        assert(x@.skip(0) =~= a@);
        assert(y@.skip(0) =~= b@);
    }
    while i < x.len() && i < y.len()
        invariant
            i <= x.len(),
            i <= y.len(),
            x@ == a@,
            y@ == b@,
            less == |x: char, y: char| x < y,
            a@.take(i as int) == b@.take(i as int),
            precedes(a@, b@, less) == precedes(a@.skip(i as int), b@.skip(i as int), less),
            precedes(b@, a@, less) == precedes(b@.skip(i as int), a@.skip(i as int), less),
            strict_total(text_less()),
        decreases x.len() - i,
    {
        let ghost s = a@.skip(i as int);
        let ghost t = b@.skip(i as int);
        proof {
            assert(s[0] == x@[i as int] && t[0] == y@[i as int]);
            assert(s.drop_first() =~= a@.skip(i + 1));
            assert(t.drop_first() =~= b@.skip(i + 1));
        }
        if x[i] < y[i] {
            proof {
                assert(precedes(s, t, less));
                assert(text_less()(a@, b@));
            }
            return Rank::Before;
        }
        if y[i] < x[i] {
            proof {
                assert(precedes(t, s, less));
                assert(text_less()(b@, a@));
            }
            return Rank::After;
        }
        proof {
            assert(a@.take(i + 1) =~= a@.take(i as int).push(a@[i as int]));
            assert(b@.take(i + 1) =~= b@.take(i as int).push(b@[i as int]));
        }
        i += 1;
    }
    if i < y.len() {
        proof {
            assert(precedes(a@.skip(i as int), b@.skip(i as int), less));
            assert(text_less()(a@, b@));
        }
        Rank::Before
    } else if i < x.len() {
        proof {
            assert(precedes(b@.skip(i as int), a@.skip(i as int), less));
            assert(text_less()(b@, a@));
        }
        Rank::After
    } else {
        proof {
            assert(a@.take(i as int) =~= a@);
            assert(b@.take(i as int) =~= b@);
        }
        Rank::Same
    }
}

/// Whether two strings hold the same characters.
pub fn same_text(a: &str, b: &str) -> (same: bool)
    ensures
        same == (a@ == b@),
{
    matches!(rank_texts(a, b), Rank::Same)
}

/// The pieces one after another, with `sep` between neighbours.
pub open spec fn joined(pieces: Seq<Seq<char>>, sep: Seq<char>) -> Seq<char>
    decreases pieces.len(),
{
    if pieces.len() == 0 {
        Seq::empty()
    } else if pieces.len() == 1 {
        pieces[0]
    } else {
        joined(pieces.drop_last(), sep) + sep + pieces.last()
    }
}

/// Joins strings with a separator between neighbours.
pub fn join(pieces: &Vec<String>, sep: &str) -> (s: String)
    ensures
        s@ == joined(texts(pieces@), sep@),
{
    let mut s = String::new();
    let mut i: usize = 0;
    while i < pieces.len()
        invariant
            i <= pieces.len(),
            s@ == joined(texts(pieces@).take(i as int), sep@),
        decreases pieces.len() - i,
    {
        if i > 0 {
            s.append(sep);
        }
        s.append(pieces[i].as_str());
        proof {
            let next = texts(pieces@).take(i + 1);
            assert(next.drop_last() =~= texts(pieces@).take(i as int));
            assert(next.last() == pieces@[i as int]@);
            if i == 0 {
                assert(s@ =~= next[0]);
            }
        }
        i += 1;
    }
    proof {
        assert(texts(pieces@).take(i as int) =~= texts(pieces@));
    }
    s
}

pub open spec fn spaces(n: nat) -> Seq<char> {
    Seq::new(n, |i: int| ' ')
}

/// `s` with spaces behind it until it is at least `width` characters long.
pub open spec fn padded(s: Seq<char>, width: nat) -> Seq<char> {
    s + spaces(if s.len() < width { (width - s.len()) as nat } else { 0 })
}

/// Fills a string up with spaces to a number of characters.
pub fn pad(s: &str, width: usize) -> (out: String)
    ensures
        out@ == padded(s@, width as nat),
{
    let mut out = String::new();
    out.append(s);
    let mut n: usize = s.unicode_len();
    proof {
        assert(out@ =~= s@ + spaces(0));
    }
    while n < width
        invariant
            s@.len() <= n,
            n <= width || n == s@.len(),
            out@ == s@ + spaces((n - s@.len()) as nat),
        decreases width - n,
    {
        out.push(' ');
        proof {
            let k = (n - s@.len()) as nat;
            assert(spaces(k).push(' ') =~= spaces(k + 1));
            assert(out@ =~= s@ + spaces(k + 1));
        }
        n += 1;
    }
    out
}

/// How many bytes a text takes in UTF-8.
pub open spec fn byte_len(s: Seq<char>) -> nat {
    encode_utf8(s).len()
}

/// The size in bytes of the longest text of a list; 0 for no text.
pub open spec fn widest(list: Seq<Seq<char>>) -> nat
    decreases list.len(),
{
    if list.len() == 0 {
        0
    } else {
        let before = widest(list.drop_last());
        if byte_len(list.last()) > before {
            byte_len(list.last())
        } else {
            before
        }
    }
}

/// The size in bytes of the longest string of a list.
pub fn widest_of(list: &Vec<String>) -> (width: usize)
    ensures
        width == widest(texts(list@)),
{
    let mut width: usize = 0;
    let mut i: usize = 0;
    while i < list.len()
        invariant
            i <= list.len(),
            width == widest(texts(list@).take(i as int)),
        decreases list.len() - i,
    {
        let n = list[i].as_str().as_bytes().len();
        if n > width {
            width = n;
        }
        proof {
            let next = texts(list@).take(i + 1);
            assert(next.drop_last() =~= texts(list@).take(i as int));
            assert(next.last() == list@[i as int]@);
        }
        i += 1;
    }
    proof {
        assert(texts(list@).take(i as int) =~= texts(list@));
    }
    width
}

/// The decimal digit for a number below ten.
pub open spec fn digit(n: int) -> char {
    (48 + n) as char
}

/// A natural number in decimal.
pub open spec fn digits(n: nat) -> Seq<char>
    decreases n,
{
    if n < 10 {
        seq![digit(n as int)]
    } else {
        digits(n / 10).push(digit((n % 10) as int))
    }
}

/// An integer in decimal, with a minus sign in front of a negative one.
pub open spec fn decimal(n: int) -> Seq<char> {
    if n < 0 {
        seq!['-'] + digits((-n) as nat)
    } else {
        digits(n as nat)
    }
}

fn natural(n: u64) -> (s: String)
    ensures
        s@ == digits(n as nat),
    decreases n,
{
    let last = (48u8 + (n % 10) as u8) as char;
    let mut s = if n < 10 {
        String::new()
    } else {
        natural(n / 10)
    };
    s.push(last);
    proof {
        assert(last == digit((n % 10) as int));
        if n < 10 {
            assert(s@ =~= digits(n as nat));
        }
    }
    s
}

/// Writes an exit code in decimal.
pub fn decimal_of(n: i32) -> (s: String)
    ensures
        s@ == decimal(n as int),
{
    let wide = n as i64;
    if wide < 0 {
        let mut s = String::new();
        s.push('-');
        let rest = natural((-wide) as u64);
        s.append(rest.as_str());
        proof {
            assert(s@ =~= decimal(n as int));
        }
        s
    } else {
        natural(wide as u64)
    }
}

/// A text of ASCII letters, digits, `-`, `_` and `.` alone.
pub open spec fn is_ordinary(s: Seq<char>) -> bool {
    forall|i: int|
        0 <= i < s.len() ==> 'a' <= #[trigger] s[i] <= 'z' || 'A' <= s[i] <= 'Z' || '0' <= s[i]
            <= '9' || s[i] == '-' || s[i] == '_' || s[i] == '.'
}

/// A text as `{:?}` writes it: between double quotes, with special characters escaped.
pub uninterp spec fn escaped_debug(s: Seq<char>) -> Seq<char>;

/// A text as `{:?}` writes it.
pub open spec fn debug_text(s: Seq<char>) -> Seq<char> {
    if is_ordinary(s) {
        seq!['"'] + s + seq!['"']
    } else {
        escaped_debug(s)
    }
}

/// Writes a string with `format!("{:?}", ..)`, that is with the `Debug` formatting of `str`.
/// Trusted: the text is a function of the string alone, here called `escaped_debug`, and a string
/// of ASCII letters, digits, `-`, `_` and `.` comes out as it is, between double quotes. Which other
/// characters are escaped, and how, is left unsaid.
#[verifier::external_body]
fn write_debug(s: &str) -> (out: String)
    ensures
        out@ == escaped_debug(s@),
        is_ordinary(s@) ==> out@ == seq!['"'] + s@ + seq!['"'],
{
    format!("{:?}", s)
}

/// Puts a string between quotes, as `{:?}` does.
pub fn quoted(s: &str) -> (out: String)
    ensures
        out@ == debug_text(s@),
{
    write_debug(s)
}

/// The strings of a list as `{:?}` writes them: `["a", "b"]`.
pub open spec fn debug_list(list: Seq<Seq<char>>) -> Seq<char> {
    seq!['['] + joined(Seq::new(list.len(), |i: int| debug_text(list[i])), ", "@) + seq![']']
}

/// Writes a list of strings between brackets, each one quoted.
pub fn quoted_list(list: &Vec<String>) -> (out: String)
    ensures
        out@ == debug_list(texts(list@)),
{
    let mut pieces: Vec<String> = Vec::new();
    let mut i: usize = 0;
    while i < list.len()
        invariant
            i <= list.len(),
            pieces.len() == i,
            forall|k: int| 0 <= k < i ==> #[trigger] pieces@[k]@ == debug_text(list@[k]@),
        decreases list.len() - i,
    {
        pieces.push(quoted(list[i].as_str()));
        i += 1;
    }
    let inner = join(&pieces, ", ");
    let mut out = String::new();
    out.push('[');
    out.append(inner.as_str());
    out.push(']');
    proof {
        let list = texts(list@);
        assert(texts(pieces@) =~= Seq::new(list.len(), |i: int| debug_text(list[i])));
        assert(out@ =~= debug_list(list));
    }
    out
}

/// Of two texts the one comes first that has the smaller character at the first difference, or
/// that ends there.
pub proof fn law_text_order_by_first_difference(a: Seq<char>, b: Seq<char>, i: int)
    requires
        0 <= i <= a.len(),
        i < b.len(),
        forall|k: int| 0 <= k < i ==> #[trigger] a[k] == b[k],
        i == a.len() || a[i] < b[i],
    ensures
        text_less()(a, b),
        !text_less()(b, a),
        a != b,
{
    let less = |x: char, y: char| x < y;
    law_first_difference_decides(a, b, less, i);
    if precedes(b, a, less) {
        lemma_precedes_transitive(a, b, a, less);
    }
    lemma_precedes_irreflexive(a, less);
}

/// Joining nothing gives nothing, joining one piece gives that piece, and two lists joined one
/// after the other have one separator between them.
pub proof fn law_joined_by_separators(
    first: Seq<Seq<char>>,
    second: Seq<Seq<char>>,
    piece: Seq<char>,
    sep: Seq<char>,
)
    requires
        first.len() > 0,
        second.len() > 0,
    ensures
        joined(Seq::empty(), sep) == Seq::<char>::empty(),
        joined(seq![piece], sep) == piece,
        joined(first + second, sep) == joined(first, sep) + sep + joined(second, sep),
    decreases second.len(),
{
    let all = first + second;
    assert(all.last() == second.last());
    if second.len() == 1 {
        assert(all.drop_last() =~= first);
    } else {
        let less = second.drop_last();
        assert(all.drop_last() =~= first + less);
        law_joined_by_separators(first, less, piece, sep);
        assert(joined(all, sep) =~= joined(first, sep) + sep + joined(second, sep));
    }
}

/// Padding keeps the text in front, adds nothing but spaces, and only as many as are missing.
pub proof fn law_padding_adds_spaces(s: Seq<char>, width: nat, i: int)
    ensures
        padded(s, width).len() == if s.len() < width {
            width
        } else {
            s.len()
        },
        padded(s, width).take(s.len() as int) == s,
        s.len() <= i < padded(s, width).len() ==> padded(s, width)[i] == ' ',
{
    assert(padded(s, width).take(s.len() as int) =~= s);
}

/// The widest text of a list is at least as wide as each of them, and as wide as one.
pub proof fn law_widest_is_the_maximum(list: Seq<Seq<char>>)
    ensures
        forall|i: int| 0 <= i < list.len() ==> encode_utf8(#[trigger] list[i]).len() <= widest(list),
        list.len() > 0 ==> exists|i: int|
            0 <= i < list.len() && encode_utf8(#[trigger] list[i]).len() == widest(list),
        list.len() == 0 ==> widest(list) == 0,
    decreases list.len(),
{
    if list.len() > 0 {
        let head = list.drop_last();
        law_widest_is_the_maximum(head);
        assert forall|i: int| 0 <= i < list.len() implies encode_utf8(#[trigger] list[i]).len()
            <= widest(list) by {
            if i < head.len() {
                assert(head[i] == list[i]);
            }
        }
        if byte_len(list.last()) > widest(head) || head.len() == 0 {
            assert(encode_utf8(list[list.len() - 1]).len() == widest(list));
        } else {
            let i = choose|i: int|
                0 <= i < head.len() && encode_utf8(#[trigger] head[i]).len() == widest(head);
            assert(list[i] == head[i]);
        }
    }
}

/// A text takes at least as many bytes as it has characters.
pub proof fn law_bytes_cover_characters(s: Seq<char>)
    ensures
        byte_len(s) >= s.len(),
    decreases s.len(),
{
    if s.len() > 0 {
        law_bytes_cover_characters(s.drop_first());
    }
}

/// The number that decimal digits stand for.
pub open spec fn value_of(s: Seq<char>) -> int
    decreases s.len(),
{
    if s.len() == 0 {
        0
    } else {
        value_of(s.drop_last()) * 10 + (s.last() as int - '0' as int)
    }
}

proof fn lemma_digits_read_back(n: nat)
    ensures
        value_of(digits(n)) == n,
        digits(n).len() > 0,
        digits(n)[0] == '0' ==> n == 0,
        forall|i: int| 0 <= i < digits(n).len() ==> '0' <= #[trigger] digits(n)[i] <= '9',
    decreases n,
{
    if n < 10 {
        assert(digits(n) =~= seq![digit(n as int)]);
        assert(digits(n).drop_last() =~= Seq::<char>::empty());
        assert(value_of(digits(n).drop_last()) == 0);
        assert(digits(n).last() as int == 48 + n);
    } else {
        lemma_digits_read_back(n / 10);
        assert(digits(n).drop_last() =~= digits(n / 10));
        assert(digits(n).last() as int == 48 + n % 10);
        assert(digits(n)[0] == digits(n / 10)[0]);
    }
}

/// What is written of a number reads back as that number: digits without leading zeros, behind a
/// minus sign if it is negative.
pub proof fn law_decimal_reads_back(n: int)
    ensures
        n >= 0 ==> value_of(decimal(n)) == n,
        n < 0 ==> decimal(n)[0] == '-' && value_of(decimal(n).drop_first()) == -n,
        forall|i: int|
            0 <= i < decimal(n).len() && !(n < 0 && i == 0) ==> '0' <= #[trigger] decimal(n)[i]
                <= '9',
        decimal(n).len() > 0,
        decimal(n)[0] == '0' ==> n == 0,
        n < 0 ==> decimal(n).len() > 1 && decimal(n)[1] != '0',
        n == 0 ==> decimal(n) == seq!['0'],
{
    if n < 0 {
        lemma_digits_read_back((-n) as nat);
        assert(decimal(n).drop_first() =~= digits((-n) as nat));
    } else {
        lemma_digits_read_back(n as nat);
        if n == 0 {
            assert(decimal(n) =~= seq!['0']);
        }
    }
}

/// Ordinary text, that is ASCII letters, digits, `-`, `_` and `.`, is quoted as it is.
pub proof fn law_ordinary_text_between_quotes(s: Seq<char>)
    requires
        forall|i: int|
            0 <= i < s.len() ==> 'a' <= #[trigger] s[i] <= 'z' || 'A' <= s[i] <= 'Z' || '0' <= s[i]
                <= '9' || s[i] == '-' || s[i] == '_' || s[i] == '.',
    ensures
        debug_text(s) == seq!['"'] + s + seq!['"'],
{
}

/// A list is written between brackets, and each item comes behind a comma and a space, quoted.
pub proof fn law_list_grows_by_commas(list: Seq<Seq<char>>, item: Seq<char>)
    ensures
        debug_list(Seq::empty()) == seq!['[', ']'],
        debug_list(seq![item]) == seq!['['] + debug_text(item) + seq![']'],
        list.len() > 0 ==> debug_list(list.push(item)) == debug_list(list).drop_last() + seq![
            ',',
            ' ',
        ] + debug_text(item) + seq![']'],
{
    reveal_strlit(", ");
    assert(", "@ =~= seq![',', ' ']);
    let none = Seq::<Seq<char>>::empty();
    assert(debug_list(none) =~= seq!['[', ']']);
    let one = seq![item];
    assert(Seq::new(one.len(), |i: int| debug_text(one[i])) =~= seq![debug_text(item)]);
    if list.len() > 0 {
        let more = list.push(item);
        let old_pieces = Seq::new(list.len(), |i: int| debug_text(list[i]));
        let pieces = Seq::new(more.len(), |i: int| debug_text(more[i]));
        assert(pieces =~= old_pieces + seq![debug_text(item)]);
        law_joined_by_separators(old_pieces, seq![debug_text(item)], debug_text(item), ", "@);
        assert(debug_list(more) =~= debug_list(list).drop_last() + seq![',', ' '] + debug_text(item)
            + seq![']']);
    }
}

/// Only ASCII letters, digits, `-`, `_` and `.` are ordinary.
pub proof fn law_ordinary_characters(s: Seq<char>, i: int)
    requires
        is_ordinary(s),
        0 <= i < s.len(),
    ensures
        'a' <= s[i] <= 'z' || 'A' <= s[i] <= 'Z' || '0' <= s[i] <= '9' || s[i] == '-' || s[i] == '_'
            || s[i] == '.',
{
}

} // verus!
