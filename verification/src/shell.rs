//! How a POSIX shell takes a command line apart into words, and why quoting keeps an argument
//! whole.

use crate::tasks::command_line;
use crate::tasks::escaped;
use crate::tasks::is_plain;
use crate::tasks::law_unquoted_characters;
use crate::tasks::quote_mark;
use crate::tasks::quoted_args;
use crate::tasks::shell_quoted;
use vstd::prelude::*;

verus! {

/// A shell in the middle of a command line.
#[verifier::ext_equal]
pub struct Reader {
    /// The words that are complete.
    pub words: Seq<Seq<char>>,
    /// The word that has begun, if any.
    pub word: Option<Seq<char>>,
    /// Whether single quotes are open.
    pub quoted: bool,
    /// Whether a backslash came just before.
    pub escaped: bool,
    /// Whether a character came that has a meaning of its own to a shell.
    pub special: bool,
}

pub open spec fn fresh_reader() -> Reader {
    Reader { words: Seq::empty(), word: None, quoted: false, escaped: false, special: false }
}

/// A character that separates words, in some locale or other. The space itself is read as such.
pub open spec fn is_blank(c: char) -> bool {
    ||| c < ' '
    ||| c == '\u{7f}'
    ||| c == '\u{85}'
    ||| c == '\u{a0}'
    ||| c == '\u{1680}'
    ||| '\u{2000}' <= c <= '\u{200a}'
    ||| c == '\u{2028}'
    ||| c == '\u{2029}'
    ||| c == '\u{202f}'
    ||| c == '\u{205f}'
    ||| c == '\u{3000}'
}

/// A character that a shell does not take literally outside quotes: it separates commands or
/// words, redirects, expands, matches file names, begins a comment or opens double quotes.
pub open spec fn is_special(c: char) -> bool {
    ||| is_blank(c)
    ||| c == '>' || c == '<' || c == '|' || c == '&' || c == ';' || c == '(' || c == ')'
    ||| c == '$' || c == '`' || c == '*' || c == '?' || c == '[' || c == ']' || c == '{'
    ||| c == '}' || c == '#' || c == '~' || c == '"' || c == '!' || c == '^'
}

impl Reader {
    /// What the word holds so far.
    pub open spec fn begun(self) -> Seq<char> {
        match self.word {
            Some(word) => word,
            None => Seq::empty(),
        }
    }

    /// Reads one character. What the special characters outside quotes do, and an escape of
    /// anything but a single quote, is left open here.
    pub open spec fn read(self, c: char) -> Reader {
        if self.escaped {
            Reader {
                word: Some(self.begun().push(c)),
                escaped: false,
                special: self.special || c != '\'',
                ..self
            }
        } else if self.quoted {
            if c == '\'' {
                Reader { quoted: false, ..self }
            } else {
                Reader { word: Some(self.begun().push(c)), ..self }
            }
        } else if c == '\'' {
            Reader { word: Some(self.begun()), quoted: true, ..self }
        } else if c == '\\' {
            Reader { word: Some(self.begun()), escaped: true, ..self }
        } else if c == ' ' {
            match self.word {
                Some(word) => Reader { words: self.words.push(word), word: None, ..self },
                None => self,
            }
        } else if is_special(c) {
            Reader { special: true, ..self }
        } else {
            Reader { word: Some(self.begun().push(c)), ..self }
        }
    }

    pub open spec fn read_all(self, text: Seq<char>) -> Reader
        decreases text.len(),
    {
        if text.len() == 0 {
            self
        } else {
            self.read_all(text.drop_last()).read(text.last())
        }
    }
}

/// The words of a command line, if nothing in it is special to a shell and its quotes are closed.
pub open spec fn shell_words(text: Seq<char>) -> Option<Seq<Seq<char>>> {
    let end = fresh_reader().read_all(text);
    if end.quoted || end.escaped || end.special {
        None
    } else {
        match end.word {
            Some(word) => Some(end.words.push(word)),
            None => Some(end.words),
        }
    }
}

proof fn lemma_read_all_concat(r: Reader, a: Seq<char>, b: Seq<char>)
    ensures
        r.read_all(a + b) == r.read_all(a).read_all(b),
    decreases b.len(),
{
    if b.len() == 0 {
        assert(a + b =~= a);
    } else {
        assert((a + b).drop_last() =~= a + b.drop_last());
        lemma_read_all_concat(r, a, b.drop_last());
    }
}

proof fn lemma_read_one(r: Reader, c: char)
    ensures
        r.read_all(seq![c]) == r.read(c),
{
    assert(seq![c].drop_last() =~= Seq::<char>::empty());
    assert(r.read_all(seq![c].drop_last()) == r);
}

proof fn lemma_read_plain(r: Reader, s: Seq<char>)
    requires
        !r.quoted && !r.escaped,
        r.word is None,
        s.len() > 0,
        forall|i: int| 0 <= i < s.len() ==> is_plain(#[trigger] s[i]),
    ensures
        r.read_all(s) == (Reader { word: Some(s), ..r }),
    decreases s.len(),
{
    let head = s.drop_last();
    assert(is_plain(s[s.len() - 1]));
    if head.len() > 0 {
        assert forall|i: int| 0 <= i < head.len() implies is_plain(#[trigger] head[i]) by {
            assert(is_plain(s[i]));
        }
        lemma_read_plain(r, head);
        assert(head.push(s.last()) =~= s);
    } else {
        assert(r.read_all(head) == r);
        assert(Seq::<char>::empty().push(s.last()) =~= s);
    }
}

proof fn lemma_read_escaped(r: Reader, s: Seq<char>)
    requires
        r.quoted && !r.escaped,
        r.word == Some(Seq::<char>::empty()),
    ensures
        r.read_all(escaped(s)) == (Reader { word: Some(s), ..r }),
    decreases s.len(),
{
    if s.len() == 0 {
        assert(s =~= Seq::<char>::empty());
    } else {
        let head = s.drop_last();
        lemma_read_escaped(r, head);
        let mid = r.read_all(escaped(head));
        assert(head.push(s.last()) =~= s);
        if s.last() == '\'' {
            lemma_read_all_concat(r, escaped(head), quote_mark());
            let q = quote_mark();
            assert(q =~= seq!['\''] + (seq!['\\'] + (seq!['\''] + seq!['\''])));
            lemma_read_all_concat(mid, seq!['\''], seq!['\\'] + (seq!['\''] + seq!['\'']));
            let m1 = mid.read_all(seq!['\'']);
            lemma_read_all_concat(m1, seq!['\\'], seq!['\''] + seq!['\'']);
            let m2 = m1.read_all(seq!['\\']);
            lemma_read_all_concat(m2, seq!['\''], seq!['\'']);
            let m3 = m2.read_all(seq!['\'']);
            lemma_read_one(mid, '\'');
            lemma_read_one(m1, '\\');
            lemma_read_one(m2, '\'');
            lemma_read_one(m3, '\'');
        } else {
            let next = escaped(head).push(s.last());
            assert(next.drop_last() =~= escaped(head));
        }
    }
}

/// Between words, a quoted text is read as the one word that was quoted.
proof fn lemma_read_quoted(r: Reader, s: Seq<char>)
    requires
        !r.quoted && !r.escaped,
        r.word is None,
    ensures
        r.read_all(shell_quoted(s)) == (Reader { word: Some(s), ..r }),
{
    if s.len() > 0 && forall|i: int| 0 <= i < s.len() ==> is_plain(#[trigger] s[i]) {
        lemma_read_plain(r, s);
    } else {
        let q = seq!['\''];
        lemma_read_all_concat(r, q + escaped(s), q);
        lemma_read_all_concat(r, q, escaped(s));
        lemma_read_one(r, '\'');
        let open = r.read_all(q);
        lemma_read_escaped(open, s);
        let inside = open.read_all(escaped(s));
        lemma_read_one(inside, '\'');
    }
}

proof fn lemma_read_args(args: Seq<Seq<char>>)
    requires
        args.len() > 0,
    ensures
        fresh_reader().read_all(quoted_args(args)) == (Reader {
            words: args.drop_last(),
            word: Some(args.last()),
            ..fresh_reader()
        }),
    decreases args.len(),
{
    let r = fresh_reader();
    let pieces = Seq::new(args.len(), |i: int| shell_quoted(args[i]));
    if args.len() == 1 {
        lemma_read_quoted(r, args[0]);
        assert(args.drop_last() =~= Seq::<Seq<char>>::empty());
    } else {
        let head = args.drop_last();
        let head_pieces = Seq::new(head.len(), |i: int| shell_quoted(head[i]));
        assert(pieces.drop_last() =~= head_pieces);
        lemma_read_args(head);
        let before = quoted_args(head);
        reveal_strlit(" ");
        assert(" "@ =~= seq![' ']);
        lemma_read_all_concat(r, before + " "@, shell_quoted(args.last()));
        lemma_read_all_concat(r, before, " "@);
        let at_word = r.read_all(before);
        lemma_read_one(at_word, ' ');
        let between = at_word.read_all(" "@);
        assert(between.words =~= head);
        lemma_read_quoted(between, args.last());
    }
}

/// A shell reads a quoted text as exactly one word, the text that was quoted.
pub proof fn law_quoted_text_is_one_word(s: Seq<char>)
    ensures
        shell_words(shell_quoted(s)) == Some(seq![s]),
{
    lemma_read_quoted(fresh_reader(), s);
    assert(Seq::<Seq<char>>::empty().push(s) =~= seq![s]);
}

/// A command with arguments is the command, a space, and a text that a shell reads as exactly the
/// arguments.
pub proof fn law_arguments_reach_the_command(cmd: Seq<char>, args: Seq<Seq<char>>)
    requires
        args.len() > 0,
    ensures
        command_line(cmd, args) == cmd + " "@ + quoted_args(args),
        shell_words(quoted_args(args)) == Some(args),
{
    lemma_read_args(args);
    assert(args.drop_last().push(args.last()) =~= args);
}

/// A command line that a shell reads as words holds none of the characters that are special to a
/// shell, and no blank but the space, except between single quotes or behind a backslash: here for
/// text without quotes and backslashes.
pub proof fn law_bare_text_has_nothing_special(text: Seq<char>, i: int)
    requires
        shell_words(text) is Some,
        0 <= i < text.len(),
        forall|k: int| 0 <= k < text.len() ==> #[trigger] text[k] != '\'' && text[k] != '\\',
    ensures
        text[i] >= ' ',
        text[i] != '>' && text[i] != '<' && text[i] != '|' && text[i] != '&' && text[i] != ';',
        text[i] != '(' && text[i] != ')' && text[i] != '$' && text[i] != '`' && text[i] != '*',
        text[i] != '?' && text[i] != '[' && text[i] != '#' && text[i] != '~' && text[i] != '"',
{
    lemma_bare(fresh_reader(), text, i);
}

proof fn lemma_bare(r: Reader, text: Seq<char>, i: int)
    requires
        !r.quoted && !r.escaped,
        !r.read_all(text).special,
        0 <= i < text.len(),
        forall|k: int| 0 <= k < text.len() ==> #[trigger] text[k] != '\'' && text[k] != '\\',
    ensures
        !is_special(text[i]),
    decreases text.len(),
{
    let head = text.drop_last();
    lemma_stays_bare(r, head);
    if i < text.len() - 1 {
        lemma_bare(r, head, i);
    } else {
        assert(text[i] != '\'' && text[i] != '\\');
        assert(text.last() == text[i]);
    }
}

proof fn lemma_stays_bare(r: Reader, text: Seq<char>)
    requires
        !r.quoted && !r.escaped,
        forall|k: int| 0 <= k < text.len() ==> #[trigger] text[k] != '\'' && text[k] != '\\',
    ensures
        !r.read_all(text).quoted && !r.read_all(text).escaped,
    decreases text.len(),
{
    if text.len() > 0 {
        lemma_stays_bare(r, text.drop_last());
        assert(text.last() == text[text.len() - 1]);
    }
}

/// Text that quoting leaves as it is holds nothing that is special to a shell.
pub proof fn law_unquoted_text_is_literal(s: Seq<char>, i: int)
    requires
        shell_quoted(s) == s,
        0 <= i < s.len(),
    ensures
        !is_special(s[i]) && s[i] != ' ' && s[i] != '\'' && s[i] != '\\',
{
    law_unquoted_characters(s);
    assert('a' <= s[i] <= 'z' || 'A' <= s[i] <= 'Z' || '0' <= s[i] <= '9' || s[i] == '-' || s[i]
        == '_' || s[i] == '.' || s[i] == '/' || s[i] == '=' || s[i] == ':' || s[i] == '@' || s[i]
        == '%' || s[i] == '+' || s[i] == ',');
}

} // verus!
