//! What a request says of the paste it is about: the key and the extension
//! that its path names, and whether its sender wants the paste as plain
//! text.

use crate::text::same_text;
use vstd::prelude::*;
use vstd::string::StrSliceExecFns;

verus! {

/// The number of characters of `s` that stand before its first `c`: all of
/// them where `c` does not occur.
pub open spec fn length_before(s: Seq<char>, c: char) -> int
    decreases s.len(),
{
    if s.len() == 0 || s.first() == c {
        0
    } else {
        1 + length_before(s.drop_first(), c)
    }
}

/// What stands in `s` before its first `c`.
pub open spec fn before_first(s: Seq<char>, c: char) -> Seq<char> {
    s.take(length_before(s, c))
}

/// What stands in `s` after its first `c`, if `c` occurs.
pub open spec fn after_first(s: Seq<char>, c: char) -> Option<Seq<char>> {
    if length_before(s, c) < s.len() {
        Some(s.skip(length_before(s, c) + 1))
    } else {
        None
    }
}

/// The name of a program that fetches pages from a command line.
pub open spec fn is_command_line_tool(product: Seq<char>) -> bool {
    product == "Wget"@ || product == "curl"@ || product == "HTTPie"@
}

/// Whether a request with this content type and this user agent is served
/// plain text: it is where it says so itself, where it names no user agent,
/// and where the product that its user agent names first is a command line
/// tool.
pub open spec fn wants_plain_text_of(
    content_type: Seq<char>,
    user_agent: Option<Seq<char>>,
) -> bool {
    ||| content_type == "text/plain"@
    ||| match user_agent {
        Some(agent) => is_command_line_tool(before_first(agent, '/')),
        None => true,
    }
}

/// The first `c` of `s` is at `d` where no `c` stands before `d` and one
/// stands at `d`, or `d` is the end of `s`.
pub proof fn lemma_length_before(s: Seq<char>, c: char, d: int)
    requires
        0 <= d <= s.len(),
        forall|k: int| 0 <= k < d ==> s[k] != c,
        d < s.len() ==> s[d] == c,
    ensures
        length_before(s, c) == d,
    decreases s.len(),
{
    if d > 0 {
        let rest = s.drop_first();
        assert forall|k: int| 0 <= k < d - 1 implies rest[k] != c by {
            assert(rest[k] == s[k + 1]);
        }
        lemma_length_before(rest, c, d - 1);
    }
}

/// What stands before the first `c` holds no `c`, and `s` is that, then
/// `c` and what stands after it, where `c` occurs, and that alone where it
/// does not.
pub proof fn lemma_split_at_first(s: Seq<char>, c: char)
    ensures
        0 <= length_before(s, c) <= s.len(),
        !before_first(s, c).contains(c),
        match after_first(s, c) {
            Some(rest) => s == before_first(s, c) + seq![c] + rest,
            None => s == before_first(s, c),
        },
    decreases s.len(),
{
    if s.len() == 0 || s.first() == c {
        assert(before_first(s, c) =~= Seq::empty());
        if s.len() > 0 {
            assert(s =~= before_first(s, c) + seq![c] + s.skip(1));
        } else {
            assert(s =~= before_first(s, c));
        }
    } else {
        let rest = s.drop_first();
        lemma_split_at_first(rest, c);
        let n = length_before(rest, c);
        assert(before_first(s, c) =~= seq![s.first()] + before_first(rest, c));
        assert forall|k: int| 0 <= k < before_first(s, c).len() implies before_first(s, c)[k]
            != c by {
            if k > 0 {
                assert(before_first(rest, c)[k - 1] == before_first(s, c)[k]);
                assert(before_first(rest, c).contains(before_first(rest, c)[k - 1]));
            }
        }
        if n < rest.len() {
            assert(rest[n] == (before_first(rest, c) + seq![c] + rest.skip(n + 1))[n]);
            assert(s[n + 1] == rest[n]);
            assert(s.skip(n + 2) =~= rest.skip(n + 1));
            assert(s =~= before_first(s, c) + seq![c] + s.skip(n + 2));
        } else {
            assert(s =~= before_first(s, c));
        }
    }
}

/// Splits `text` at its first `separator`, which is dropped.
pub fn split_at_first(text: &str, separator: char) -> (parts: (String, Option<String>))
    ensures
        parts.0@ == before_first(text@, separator),
        match parts.1 {
            Some(rest) => after_first(text@, separator) == Some(rest@),
            None => after_first(text@, separator) is None,
        },
{
    let n = text.unicode_len();
    let mut found: Option<usize> = None;
    let mut i: usize = 0;
    for c in it: text.chars()
        invariant
            n == text@.len(),
            it.seq() == text@,
            i == it.index(),
            match found {
                Some(d) => d < i && text@[d as int] == separator && forall|k: int|
                    0 <= k < d ==> text@[k] != separator,
                None => forall|k: int| 0 <= k < i ==> text@[k] != separator,
            },
    {
        if found.is_none() && c == separator {
            found = Some(i);
        }
        i += 1;
    }
    match found {
        Some(d) => {
            proof {
                lemma_length_before(text@, separator, d as int);
            }
            let head = text.substring_char(0, d).to_owned();
            let rest = text.substring_char(d + 1, n).to_owned();
            (head, Some(rest))
        },
        None => {
            proof {
                lemma_length_before(text@, separator, n as int);
                assert(text@.take(n as int) =~= text@);
            }
            (text.to_owned(), None)
        },
    }
}

/// Splits a path segment at its first dot. What stands before the dot is
/// the key; what follows it is the extension, which may hold further dots.
/// A segment without a dot is all key.
pub fn split_key(segment: &str) -> (parts: (String, Option<String>))
    ensures
        !parts.0@.contains('.'),
        match parts.1 {
            Some(ext) => segment@ == parts.0@ + seq!['.'] + ext@,
            None => segment@ == parts.0@,
        },
{
    proof {
        lemma_split_at_first(segment@, '.');
    }
    split_at_first(segment, '.')
}

/// Whether a request is served the paste as plain text, from its content
/// type and its user agent.
pub fn wants_plain_text(content_type: &str, user_agent: Option<&str>) -> (plain: bool)
    ensures
        plain == wants_plain_text_of(
            content_type@,
            match user_agent {
                Some(agent) => Some(agent@),
                None => None,
            },
        ),
{
    if same_text(content_type, "text/plain") {
        return true;
    }
    match user_agent {
        Some(agent) => {
            let (product, _) = split_at_first(agent, '/');
            let product = product.as_str();
            same_text(product, "Wget") || same_text(product, "curl") || same_text(
                product,
                "HTTPie",
            )
        },
        None => true,
    }
}

} // verus!
