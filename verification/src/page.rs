//! The parts of the pages that are computed from the pastes: the address
//! of a new paste, a paste as HTML, and the list of all pastes.

use crate::text::text_views;
use vstd::prelude::*;
use vstd::string::StringExecFns;

verus! {

/// What stands for the character `c` in HTML text: an entity for each of
/// the five characters that HTML reads as markup, and `c` itself otherwise.
pub open spec fn escaped_char(c: char) -> Seq<char> {
    if c == '"' {
        "&quot;"@
    } else if c == '&' {
        "&amp;"@
    } else if c == '\'' {
        "&#x27;"@
    } else if c == '<' {
        "&lt;"@
    } else if c == '>' {
        "&gt;"@
    } else {
        seq![c]
    }
}

/// `s` with each character escaped for HTML.
pub open spec fn escaped(s: Seq<char>) -> Seq<char>
    decreases s.len(),
{
    if s.len() == 0 {
        Seq::empty()
    } else {
        escaped(s.drop_last()) + escaped_char(s.last())
    }
}

/// What a character of a paste becomes between `<code>` tags: a line break
/// closes one element and opens the next.
pub open spec fn line_broken_char(c: char) -> Seq<char> {
    if c == '\n' {
        "</code><code>"@
    } else {
        seq![c]
    }
}

/// `s` with each line break replaced by the end of one `<code>` element and
/// the start of the next.
pub open spec fn line_broken(s: Seq<char>) -> Seq<char>
    decreases s.len(),
{
    if s.len() == 0 {
        Seq::empty()
    } else {
        line_broken(s.drop_last()) + line_broken_char(s.last())
    }
}

/// `html` with each of its lines in a `<code>` element of its own.
pub open spec fn code_lines_of(html: Seq<char>) -> Seq<char> {
    "<code>"@ + line_broken(html) + "</code>"@
}

/// The address under which the paste `id` is found: on `host` where the
/// request named one, and relative otherwise. A line break ends it.
pub open spec fn paste_url_of(host: Option<Seq<char>>, id: Seq<char>) -> Seq<char> {
    match host {
        Some(host) => "https://"@ + host + "/"@ + id + "\n"@,
        None => "/"@ + id + "\n"@,
    }
}

/// The entry for the paste `title` in the list of pastes: a link to the
/// paste, a button that removes it and a button that leads to its editor.
pub open spec fn paste_link_of(title: Seq<char>) -> Seq<char> {
    "<li><form action=\"/remove_paste/"@ + title + "\" method=\"POST\"><a href=\"/"@ + title
        + ".md\">"@ + title + "</a><button type=\"submit\" title=\"Delete "@ + title
        + "\">&#x274C;</button><button type=\"button\" title=\"Edit "@ + title
        + "\"><a href=\"/edit/"@ + title + "\">&#x270F;&#xFE0F;</a></button></form></li>"@
}

/// The entries for `titles`, one on each line.
pub open spec fn paste_links_of(titles: Seq<Seq<char>>) -> Seq<char>
    decreases titles.len(),
{
    if titles.len() == 0 {
        Seq::empty()
    } else if titles.len() == 1 {
        paste_link_of(titles[0])
    } else {
        paste_links_of(titles.drop_last()) + "\n"@ + paste_link_of(titles.last())
    }
}

/// The list of the pastes `titles`, in their order.
pub open spec fn paste_list_of(titles: Seq<Seq<char>>) -> Seq<char> {
    "<ul>"@ + paste_links_of(titles) + "</ul>"@
}

/// `String::push` of the standard library: `c` is appended to `text`.
#[verifier::external_body]
fn push_char(text: &mut String, c: char)
    ensures
        final(text)@ == old(text)@.push(c),
{
    text.push(c)
}

/// `encode_minimal` of `htmlescape`: each of `"`, `&`, `'`, `<` and `>` is
/// replaced by its entity, and every other character is kept.
#[verifier::external_body]
fn encode_minimal(text: &str) -> (html: String)
    ensures
        html@ == escaped(text@),
{
    htmlescape::encode_minimal(text)
}

/// Puts each line of `html` in a `<code>` element of its own, so that a
/// style sheet can number the lines.
pub fn code_lines(html: &str) -> (page: String)
    ensures
        page@ == code_lines_of(html@),
{
    let mut page = "<code>".to_owned();
    for c in it: html.chars()
        invariant
            it.seq() == html@,
            page@ == "<code>"@ + line_broken(html@.take(it.index() as int)),
    {
        let ghost before = html@.take(it.index() as int);
        if c == '\n' {
            page.append("</code><code>");
        } else {
            push_char(&mut page, c);
        }
        proof {
            assert(html@.take(it.index() + 1).drop_last() =~= before);
            assert(page@ =~= "<code>"@ + line_broken(html@.take(it.index() + 1)));
        }
    }
    proof {
        assert(html@.take(html@.len() as int) =~= html@);
    }
    page.append("</code>");
    page
}

/// A paste as HTML where no extension says how to highlight it: the text
/// is escaped, and each of its lines is put in a `<code>` element.
pub fn plain_code(content: &str) -> (page: String)
    ensures
        page@ == code_lines_of(escaped(content@)),
{
    let html = encode_minimal(content);
    code_lines(html.as_str())
}

/// The address of the paste `id`, as the answer to an upload.
pub fn paste_url(host: Option<&str>, id: &str) -> (url: String)
    ensures
        url@ == paste_url_of(
            match host {
                Some(h) => Some(h@),
                None => None,
            },
            id@,
        ),
{
    let mut url = match host {
        Some(h) => {
            let mut start = "https://".to_owned();
            start.append(h);
            start
        },
        None => String::new(),
    };
    url.append("/");
    url.append(id);
    url.append("\n");
    proof {
        assert(url@ =~= paste_url_of(
            match host {
                Some(h) => Some(h@),
                None => None,
            },
            id@,
        ));
    }
    url
}

/// The entry for the paste `title` in the list of pastes.
fn paste_link(page: &mut String, title: &str)
    ensures
        final(page)@ == old(page)@ + paste_link_of(title@),
{
    page.append("<li><form action=\"/remove_paste/");
    page.append(title);
    page.append("\" method=\"POST\"><a href=\"/");
    page.append(title);
    page.append(".md\">");
    page.append(title);
    page.append("</a><button type=\"submit\" title=\"Delete ");
    page.append(title);
    page.append("\">&#x274C;</button><button type=\"button\" title=\"Edit ");
    page.append(title);
    page.append("\"><a href=\"/edit/");
    page.append(title);
    page.append("\">&#x270F;&#xFE0F;</a></button></form></li>");
    proof {
        assert(page@ =~= old(page)@ + paste_link_of(title@));
    }
}

/// The list of the pastes `titles`, in their order, as HTML.
pub fn paste_list(titles: &[String]) -> (page: String)
    ensures
        page@ == paste_list_of(text_views(titles@)),
{
    let ghost all = text_views(titles@);
    let mut page = "<ul>".to_owned();
    let mut i: usize = 0;
    proof {
        assert(all.take(0) =~= Seq::empty());
        assert(page@ =~= "<ul>"@ + paste_links_of(all.take(0)));
    }
    while i < titles.len()
        invariant
            i <= titles@.len(),
            all == text_views(titles@),
            page@ == "<ul>"@ + paste_links_of(all.take(i as int)),
        decreases titles@.len() - i,
    {
        let ghost before = page@;
        if i > 0 {
            page.append("\n");
        }
        paste_link(&mut page, titles[i].as_str());
        proof {
            let next = all.take(i + 1);
            assert(next.drop_last() =~= all.take(i as int));
            assert(next.last() == all[i as int]);
            if i == 0 {
                assert(paste_links_of(all.take(0)) =~= Seq::empty());
            }
            assert(page@ =~= "<ul>"@ + paste_links_of(next));
        }
        i += 1;
    }
    proof {
        assert(all.take(i as int) =~= all);
    }
    page.append("</ul>");
    page
}

} // verus!
