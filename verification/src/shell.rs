//! Shell words: quoting, and how quoted words read back.

use crate::text;
use vstd::prelude::*;

verus! {

/// Characters that are not left bare in a quoted word.
pub open spec fn is_special(c: char) -> bool {
    ||| c == '\n'
    ||| c == '\''
    ||| c == '|'
    ||| c == '&'
    ||| c == ';'
    ||| c == '<'
    ||| c == '>'
    ||| c == '('
    ||| c == ')'
    ||| c == '$'
    ||| c == '`'
    ||| c == '\\'
    ||| c == '"'
    ||| c == ' '
    ||| c == '\t'
    ||| c == '*'
    ||| c == '?'
    ||| c == '['
    ||| c == '#'
    ||| c == '~'
    ||| c == '='
    ||| c == '%'
}

/// Whether text holds no special character.
pub open spec fn is_bare(s: Seq<char>) -> bool {
    forall|i: int| 0 <= i < s.len() ==> !is_special(#[trigger] s[i])
}

/// A word as it is written for a shell: bare where nothing in it is special,
/// else between single quotes, each single quote in it written as `'\''`.
pub open spec fn quoted(s: Seq<char>) -> Seq<char> {
    if s.len() > 0 && is_bare(s) {
        s
    } else {
        "'"@ + text::replaced(s, "'"@, "'\\''"@) + "'"@
    }
}

/// Quotes a word for a shell.
///
/// Calls `shell_words::quote`. Claimed of it: text without special characters
/// comes back as it is, unless it is empty; any other text comes back between
/// single quotes, with each single quote in it exchanged for `'\''`.
#[verifier::external_body]
pub(crate) fn quote(s: &str) -> (r: String)
    ensures
        r@ == quoted(s@),
{
    shell_words::quote(s).into_owned()
}

/// Several words, quoted and separated by spaces.
pub open spec fn line_of(words: Seq<Seq<char>>) -> Seq<char> {
    text::joined(words.map_values(|w: Seq<char>| quoted(w)), " "@)
}

/// The program and its arguments as the words of a command line.
pub fn command_line(program: &str, args: &Vec<String>) -> (r: String)
    ensures
        r@ == line_of(seq![program@] + text::views(args@)),
{
    let ghost f = |w: Seq<char>| quoted(w);
    let ghost words = seq![program@] + text::views(args@);
    let mut parts: Vec<String> = Vec::new();
    parts.push(quote(program));
    let mut i: usize = 0;
    while i < args.len()
        invariant
            0 <= i <= args@.len(),
            words == seq![program@] + text::views(args@),
            parts@.len() == i + 1,
            forall|j: int| 0 <= j <= i ==> (#[trigger] parts@[j])@ == quoted(words[j]),
        decreases args@.len() - i,
    {
        parts.push(quote(args[i].as_str()));
        i += 1;
    }
    proof {
        assert(text::views(parts@) =~= words.map_values(f));
    }
    text::join_texts(&parts, " ")
}

/// Characters between words.
pub open spec fn is_blank(c: char) -> bool {
    c == ' ' || c == '\t' || c == '\n'
}

/// How the rest of a line reads, between quotes or not, with the word that
/// was begun: the words of it, or nothing where it ends within quotes or
/// holds a double quote.
pub open spec fn words_from(
    s: Seq<char>,
    in_quotes: bool,
    word: Option<Seq<char>>,
) -> Option<Seq<Seq<char>>>
    decreases s.len(),
{
    let begun = match word {
        Some(w) => w,
        None => seq![],
    };
    if s.len() == 0 {
        if in_quotes {
            None
        } else {
            match word {
                Some(w) => Some(seq![w]),
                None => Some(seq![]),
            }
        }
    } else if in_quotes {
        if s[0] == '\'' {
            words_from(s.skip(1), false, Some(begun))
        } else {
            words_from(s.skip(1), true, Some(begun.push(s[0])))
        }
    } else if is_blank(s[0]) {
        match (word, words_from(s.skip(1), false, None)) {
            (None, rest) => rest,
            (Some(w), Some(rest)) => Some(seq![w] + rest),
            (Some(w), None) => None,
        }
    } else if s[0] == '\'' {
        words_from(s.skip(1), true, Some(begun))
    } else if s[0] == '\\' {
        if s.len() < 2 {
            None
        } else {
            words_from(s.skip(2), false, Some(begun.push(s[1])))
        }
    } else if s[0] == '"' {
        None
    } else {
        words_from(s.skip(1), false, Some(begun.push(s[0])))
    }
}

/// How a line falls into words in a shell, with single quotes and backslashes
/// taken away. Operators such as `&&` count as words, and what a shell does
/// with characters such as `$` or `;` outside quotes is not modelled.
pub open spec fn words_of(line: Seq<char>) -> Option<Seq<Seq<char>>> {
    words_from(line, false, None)
}

/// Characters that neither end a word nor quote: outside quotes they go into
/// the word as they are.
pub open spec fn is_plain(c: char) -> bool {
    !is_blank(c) && c != '\'' && c != '\\' && c != '"'
}

/// Plain characters go into the word that was begun.
pub proof fn plain_text_joins_the_word(p: Seq<char>, t: Seq<char>, w: Seq<char>)
    requires
        forall|i: int| 0 <= i < p.len() ==> is_plain(#[trigger] p[i]),
    ensures
        words_from(p + t, false, Some(w)) == words_from(t, false, Some(w + p)),
        p.len() > 0 ==> words_from(p + t, false, None) == words_from(t, false, Some(p)),
    decreases p.len(),
{
    if p.len() == 0 {
        assert(p + t =~= t);
        assert(w + p =~= w);
    } else {
        assert(is_plain(p[0]));
        let rest = p.skip(1);
        assert forall|i: int| 0 <= i < rest.len() implies is_plain(#[trigger] rest[i]) by {
            assert(rest[i] == p[i + 1]);
        }
        assert((p + t).skip(1) =~= rest + t);
        plain_text_joins_the_word(rest, t, w.push(p[0]));
        plain_text_joins_the_word(rest, t, Seq::<char>::empty().push(p[0]));
        assert(w.push(p[0]) + rest =~= w + p);
        assert(Seq::<char>::empty().push(p[0]) + rest =~= p);
    }
}

proof fn lemma_read_quoted(s: Seq<char>, w: Seq<char>)
    ensures
        words_from(text::replaced(s, "'"@, "'\\''"@) + "'"@, true, Some(w)) == Some(seq![w + s]),
    decreases s.len(),
{
    reveal_strlit("'");
    reveal_strlit("'\\''");
    let mark = "'"@;
    let open = "'\\''"@;
    let done = text::replaced(s, mark, open);
    let all = done + mark;
    if s.len() == 0 {
        assert(all =~= seq!['\'']);
        assert(all.skip(1) =~= seq![]);
        assert(w + s =~= w);
        assert(words_from(all.skip(1), false, Some(w)) == Some(seq![w]));
    } else {
        let rest = s.skip(1);
        let tail = text::replaced(rest, mark, open) + mark;
        lemma_read_quoted(rest, w.push(s[0]));
        assert(w.push(s[0]) + rest =~= w + s);
        assert(s.subrange(0, 1) =~= seq![s[0]]);
        if s[0] == '\'' {
            assert(text::occurs_at(s, mark, 0)) by {
                assert(s.subrange(0, 1) =~= mark);
            }
            assert(s.skip(mark.len() as int) =~= rest);
            assert(all =~= seq!['\'', '\\', '\'', '\''] + tail);
            assert(all.skip(1) =~= seq!['\\', '\'', '\''] + tail);
            assert(all.skip(1).skip(2) =~= seq!['\''] + tail);
            assert(all.skip(1).skip(2).skip(1) =~= tail);
            assert(words_from(all, true, Some(w)) == words_from(all.skip(1), false, Some(w)));
            assert(words_from(all.skip(1), false, Some(w)) == words_from(
                all.skip(1).skip(2),
                false,
                Some(w.push('\'')),
            ));
            assert(words_from(all.skip(1).skip(2), false, Some(w.push('\''))) == words_from(
                tail,
                true,
                Some(w.push('\'')),
            ));
        } else {
            assert(!text::occurs_at(s, mark, 0)) by {
                assert(s.subrange(0, 1)[0] != mark[0]);
            }
            assert(all =~= seq![s[0]] + tail);
            assert(all.skip(1) =~= tail);
        }
    }
}

/// A quoted word reads back as the word, behind whatever was begun.
pub proof fn a_quoted_word_reads_back(s: Seq<char>, w: Seq<char>)
    ensures
        words_from(quoted(s), false, Some(w)) == Some(seq![w + s]),
        words_of(quoted(s)) == Some(seq![s]),
{
    let q = quoted(s);
    if s.len() > 0 && is_bare(s) {
        assert forall|i: int| 0 <= i < s.len() implies is_plain(#[trigger] s[i]) by {
            assert(!is_special(s[i]));
        }
        assert(s + seq![] =~= s);
        plain_text_joins_the_word(s, seq![], w);
    } else {
        reveal_strlit("'");
        let tail = text::replaced(s, "'"@, "'\\''"@) + "'"@;
        assert(q =~= seq!['\''] + tail);
        assert(q.skip(1) =~= tail);
        lemma_read_quoted(s, w);
        lemma_read_quoted(s, seq![]);
        assert(seq![] + s =~= s);
    }
}

proof fn lemma_quotes_end(s: Seq<char>, w: Seq<char>, t: Seq<char>)
    ensures
        words_from(text::replaced(s, "'"@, "'\\''"@) + "'"@ + t, true, Some(w)) == words_from(
            t,
            false,
            Some(w + s),
        ),
    decreases s.len(),
{
    reveal_strlit("'");
    reveal_strlit("'\\''");
    let mark = "'"@;
    let open = "'\\''"@;
    let all = text::replaced(s, mark, open) + mark + t;
    if s.len() == 0 {
        assert(all =~= seq!['\''] + t);
        assert(all.skip(1) =~= t);
        assert(w + s =~= w);
    } else {
        let rest = s.skip(1);
        let tail = text::replaced(rest, mark, open) + mark + t;
        lemma_quotes_end(rest, w.push(s[0]), t);
        assert(w.push(s[0]) + rest =~= w + s);
        assert(s.subrange(0, 1) =~= seq![s[0]]);
        if s[0] == '\'' {
            assert(text::occurs_at(s, mark, 0)) by {
                assert(s.subrange(0, 1) =~= mark);
            }
            assert(s.skip(mark.len() as int) =~= rest);
            assert(all =~= seq!['\'', '\\', '\'', '\''] + tail);
            assert(all.skip(1) =~= seq!['\\', '\'', '\''] + tail);
            assert(all.skip(1).skip(2) =~= seq!['\''] + tail);
            assert(all.skip(1).skip(2).skip(1) =~= tail);
            assert(words_from(all, true, Some(w)) == words_from(all.skip(1), false, Some(w)));
            assert(words_from(all.skip(1), false, Some(w)) == words_from(
                all.skip(1).skip(2),
                false,
                Some(w.push('\'')),
            ));
            assert(words_from(all.skip(1).skip(2), false, Some(w.push('\''))) == words_from(
                tail,
                true,
                Some(w.push('\'')),
            ));
        } else {
            assert(!text::occurs_at(s, mark, 0)) by {
                assert(s.subrange(0, 1)[0] != mark[0]);
            }
            assert(all =~= seq![s[0]] + tail);
            assert(all.skip(1) =~= tail);
        }
    }
}

/// What follows a quoted word goes on with it.
pub proof fn a_quoted_word_goes_on(s: Seq<char>, t: Seq<char>)
    ensures
        words_of(quoted(s) + t) == words_from(t, false, Some(s)),
{
    if s.len() > 0 && is_bare(s) {
        assert forall|i: int| 0 <= i < s.len() implies is_plain(#[trigger] s[i]) by {
            assert(!is_special(s[i]));
        }
        plain_text_joins_the_word(s, t, seq![]);
    } else {
        reveal_strlit("'");
        let tail = text::replaced(s, "'"@, "'\\''"@) + "'"@ + t;
        assert(quoted(s) + t =~= seq!['\''] + tail);
        assert((quoted(s) + t).skip(1) =~= tail);
        lemma_quotes_end(s, seq![], t);
        assert(seq![] + s =~= s);
    }
}

proof fn lemma_space_ends_a_line(
    s: Seq<char>,
    in_quotes: bool,
    word: Option<Seq<char>>,
    rest: Seq<char>,
)
    requires
        words_from(s, in_quotes, word) is Some,
        words_of(rest) is Some,
    ensures
        words_from(s + seq![' '] + rest, in_quotes, word) == Some(
            words_from(s, in_quotes, word)->0 + words_of(rest)->0,
        ),
    decreases s.len(),
{
    let all = s + seq![' '] + rest;
    let begun = match word {
        Some(w) => w,
        None => seq![],
    };
    let more = words_of(rest)->0;
    if s.len() == 0 {
        assert(all.skip(1) =~= rest);
        if word is None {
            assert(seq![] + more =~= more);
        }
    } else {
        assert(all[0] == s[0]);
        assert(all.skip(1) =~= s.skip(1) + seq![' '] + rest);
        if in_quotes {
            if s[0] == '\'' {
                lemma_space_ends_a_line(s.skip(1), false, Some(begun), rest);
            } else {
                lemma_space_ends_a_line(s.skip(1), true, Some(begun.push(s[0])), rest);
            }
        } else if is_blank(s[0]) {
            lemma_space_ends_a_line(s.skip(1), false, None, rest);
            let inner = words_from(s.skip(1), false, None)->0;
            if word is Some {
                assert(seq![begun] + (inner + more) =~= (seq![begun] + inner) + more);
            }
        } else if s[0] == '\'' {
            lemma_space_ends_a_line(s.skip(1), true, Some(begun), rest);
        } else if s[0] == '\\' {
            assert(all.skip(2) =~= s.skip(2) + seq![' '] + rest);
            lemma_space_ends_a_line(s.skip(2), false, Some(begun.push(s[1])), rest);
        } else if s[0] == '"' {
        } else {
            lemma_space_ends_a_line(s.skip(1), false, Some(begun.push(s[0])), rest);
        }
    }
}

/// Lines with a space between them read as the words of both.
pub proof fn a_space_separates_words(a: Seq<char>, b: Seq<char>)
    requires
        words_of(a) is Some,
        words_of(b) is Some,
    ensures
        words_of(a + " "@ + b) == Some(words_of(a)->0 + words_of(b)->0),
{
    reveal_strlit(" ");
    assert(" "@ =~= seq![' ']);
    lemma_space_ends_a_line(a, false, None, b);
}

/// A command line of quoted words reads back as exactly these words.
pub proof fn a_line_of_quoted_words_reads_back(words: Seq<Seq<char>>)
    ensures
        words_of(line_of(words)) == Some(words),
    decreases words.len(),
{
    let f = |w: Seq<char>| quoted(w);
    let parts = words.map_values(f);
    if words.len() == 0 {
        assert(words =~= seq![]);
    } else {
        let front = words.drop_last();
        a_quoted_word_reads_back(words.last(), seq![]);
        assert(parts.drop_last() =~= front.map_values(f));
        assert(parts.last() == quoted(words.last()));
        if words.len() == 1 {
            assert(words =~= seq![words[0]]);
        } else {
            a_line_of_quoted_words_reads_back(front);
            a_space_separates_words(line_of(front), quoted(words.last()));
            assert(front + seq![words.last()] =~= words);
        }
    }
}

} // verus!
