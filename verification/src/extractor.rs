//! Markdown text and link extraction for stored articles: the text
//! fragments and link destinations of a document, a short word-by-word
//! preview, and language detection for the extracted text.

use vstd::prelude::*;
use vstd::utf8::encode_utf8;
use vstd::string::StringExecFns;
use crate::store::str_view;

verus! {

/// Longest byte length of an article preview.
pub const MAX_PREVIEW_LEN: usize = 140;

/// What parsing a markdown document yields: its text fragments and its
/// link destinations, each in document order.
pub uninterp spec fn md_extract_of(content: Seq<char>) -> (Seq<Seq<char>>, Seq<Seq<char>>);

/// The whitespace-separated words of a text.
pub uninterp spec fn words_of(text: Seq<char>) -> Seq<Seq<char>>;

/// The language class detected for a text: 1 English, 2 German,
/// 3 Russian, 0 anything else.
pub uninterp spec fn lang_class_of(text: Seq<char>) -> int;

/// Relies on comrak::parse_document: the parse of a markdown document is a
/// function of the text alone. Walks the document tree in document order
/// and hands back the text fragments and the link destinations.
#[verifier::external_body]
fn markdown_parts(content: &str) -> (r: (Vec<String>, Vec<String>))
    ensures
        (r.0@.map_values(|s: String| s@), r.1@.map_values(|s: String| s@)) == md_extract_of(
            content@,
        ),
{
    let arena = comrak::Arena::new();
    let root = comrak::parse_document(&arena, content, &comrak::Options::default());
    let mut texts: Vec<String> = Vec::new();
    let mut links: Vec<String> = Vec::new();
    for node in root.descendants() {
        match &node.data.borrow().value {
            comrak::nodes::NodeValue::Text(t) => texts.push(t.to_string()),
            comrak::nodes::NodeValue::Link(l) => links.push(l.url.clone()),
            _ => {},
        }
    }
    (texts, links)
}

/// Relies on str::split_whitespace: the words of a text are a function of
/// the text alone.
#[verifier::external_body]
fn split_words(text: &str) -> (r: Vec<String>)
    ensures
        r@.map_values(|s: String| s@) == words_of(text@),
{
    text.split_whitespace().map(|w| w.to_string()).collect()
}

/// Relies on whatlang::detect_lang: the detected language is a function of
/// the text alone. One arm per recognised variant: 1 English, 2 German,
/// 3 Russian, 0 for every other outcome.
#[verifier::external_body]
fn detect_lang_class(text: &str) -> (r: u8)
    ensures
        r as int == lang_class_of(text@),
        0 <= r <= 3,
{
    match whatlang::detect_lang(text) {
        Some(whatlang::Lang::Eng) => 1,
        Some(whatlang::Lang::Deu) => 2,
        Some(whatlang::Lang::Rus) => 3,
        _ => 0,
    }
}

/// The name persisted for a language class; anything unrecognised counts
/// as English.
pub open spec fn lang_name(class: int) -> Seq<char> {
    if class == 2 {
        "german"@
    } else if class == 3 {
        "russian"@
    } else {
        "english"@
    }
}

/// The language name persisted for a text.
pub fn detect_language(content: &str) -> (r: &'static str)
    ensures
        r@ == lang_name(lang_class_of(content@)),
{
    let class = detect_lang_class(content);
    if class == 2 {
        "german"
    } else if class == 3 {
        "russian"
    } else {
        "english"
    }
}

/// The UTF-8 length of a text, as `str::len` reports it.
pub open spec fn byte_len(s: Seq<char>) -> int {
    encode_utf8(s).len() as usize as int
}

/// The preview built from a word sequence: each word in turn is appended
/// together with one trailing space, but only when the preview so far plus
/// the bare word stays within `limit` bytes; words that do not fit are
/// skipped and later, shorter words may still be taken.
pub open spec fn preview_fold(words: Seq<Seq<char>>, limit: int) -> Seq<char>
    decreases words.len(),
{
    if words.len() == 0 {
        Seq::empty()
    } else {
        let rest = preview_fold(words.drop_last(), limit);
        if byte_len(rest) + byte_len(words.last()) <= limit {
            rest + words.last() + seq![' ']
        } else {
            rest
        }
    }
}

/// The fragments joined with single spaces, without a trailing one.
pub open spec fn joined(parts: Seq<Seq<char>>) -> Seq<char>
    decreases parts.len(),
{
    if parts.len() == 0 {
        Seq::empty()
    } else if parts.len() == 1 {
        parts[0]
    } else {
        joined(parts.drop_last()) + seq![' '] + parts.last()
    }
}

/// The words of all fragments, in order.
pub open spec fn all_words(texts: Seq<Seq<char>>) -> Seq<Seq<char>>
    decreases texts.len(),
{
    if texts.len() == 0 {
        Seq::empty()
    } else {
        all_words(texts.drop_last()) + words_of(texts.last())
    }
}

/// Build the preview of a word list: take each word that still fits.
pub fn build_preview(words: &Vec<String>) -> (preview: String)
    ensures
        preview@ == preview_fold(words@.map_values(str_view()), MAX_PREVIEW_LEN as int),
{
    let mut preview = String::new();
    let mut i: usize = 0;
    while i < words.len()
        invariant
            i <= words.len(),
            preview@ == preview_fold(
                words@.map_values(str_view()).subrange(0, i as int),
                MAX_PREVIEW_LEN as int,
            ),
        decreases words.len() - i,
    {
        let ghost ws = words@.map_values(str_view());
        proof {
            assert(ws.subrange(0, i as int + 1) =~= ws.subrange(0, i as int).push(ws[i as int]));
            assert(ws.subrange(0, i as int + 1).drop_last() =~= ws.subrange(0, i as int));
        }
        let plen = preview.as_str().len();
        let wlen = words[i].as_str().len();
        if plen <= MAX_PREVIEW_LEN && wlen <= MAX_PREVIEW_LEN - plen {
            preview.append(words[i].as_str());
            preview.append(" ");
            proof {
                reveal_strlit(" ");
                assert(" "@ =~= seq![' ']);
                assert(preview@ =~= preview_fold(
                    ws.subrange(0, i as int + 1),
                    MAX_PREVIEW_LEN as int,
                ));
            }
        } else {
            proof {
                assert(byte_len(preview@) + byte_len(ws[i as int]) > MAX_PREVIEW_LEN as int);
            }
        }
        i += 1;
    }
    proof {
        assert(words@.map_values(str_view()).subrange(0, words@.len() as int) =~= words@
            .map_values(str_view()));
    }
    preview
}

/// Join text fragments with single spaces.
pub fn join_fragments(parts: &Vec<String>) -> (text: String)
    ensures
        text@ == joined(parts@.map_values(str_view())),
{
    let mut text = String::new();
    let mut i: usize = 0;
    while i < parts.len()
        invariant
            i <= parts.len(),
            text@ == joined(parts@.map_values(str_view()).subrange(0, i as int)),
        decreases parts.len() - i,
    {
        let ghost ps = parts@.map_values(str_view());
        proof {
            assert(ps.subrange(0, i as int + 1) =~= ps.subrange(0, i as int).push(ps[i as int]));
            assert(ps.subrange(0, i as int + 1).drop_last() =~= ps.subrange(0, i as int));
        }
        if i > 0 {
            text.append(" ");
        }
        text.append(parts[i].as_str());
        proof {
            reveal_strlit(" ");
            assert(" "@ =~= seq![' ']);
            if i == 0 {
                assert(text@ =~= ps[0]);
                assert(joined(ps.subrange(0, 1)) == ps.subrange(0, 1)[0]);
                assert(ps.subrange(0, 1)[0] == ps[0]);
            } else {
                assert(text@ =~= joined(ps.subrange(0, i as int)) + seq![' '] + ps[i as int]);
            }
        }
        i += 1;
    }
    proof {
        assert(parts@.map_values(str_view()).subrange(0, parts@.len() as int) =~= parts@
            .map_values(str_view()));
    }
    text
}

/// What extraction yields for an article's markdown content.
pub struct Info {
    pub preview: String,
    pub text: String,
    pub links: Vec<String>,
    pub language: &'static str,
}

/// Extract an article: its link destinations, its plain text, a short
/// preview of that text, and the language detected for it.
pub fn extract_article(content: &str) -> (info: Info)
    ensures
        info.links@.map_values(str_view()) == md_extract_of(content@).1,
        info.text@ == joined(md_extract_of(content@).0),
        info.preview@ == preview_fold(
            all_words(md_extract_of(content@).0),
            MAX_PREVIEW_LEN as int,
        ),
        info.language@ == lang_name(lang_class_of(joined(md_extract_of(content@).0))),
{
    let (texts, links) = markdown_parts(content);
    let ghost fragments = md_extract_of(content@).0;
    proof {
        assert(texts@.map_values(|s: String| s@) == fragments);
        assert(texts@.map_values(|s: String| s@) =~= texts@.map_values(str_view()));
    }
    let mut words: Vec<String> = Vec::new();
    let mut i: usize = 0;
    while i < texts.len()
        invariant
            i <= texts.len(),
            texts@.map_values(str_view()) == fragments,
            words@.map_values(str_view()) == all_words(fragments.subrange(0, i as int)),
        decreases texts.len() - i,
    {
        proof {
            assert(fragments.subrange(0, i as int + 1) =~= fragments.subrange(0, i as int).push(
                fragments[i as int],
            ));
            assert(fragments.subrange(0, i as int + 1).drop_last() =~= fragments.subrange(
                0,
                i as int,
            ));
        }
        let mut ws = split_words(texts[i].as_str());
        words.append(&mut ws);
        proof {
            assert(words@.map_values(str_view()) =~= all_words(
                fragments.subrange(0, i as int + 1),
            ));
        }
        i += 1;
    }
    proof {
        assert(fragments.subrange(0, fragments.len() as int) =~= fragments);
    }
    let preview = build_preview(&words);
    let text = join_fragments(&texts);
    let language = detect_language(text.as_str());
    proof {
        assert(links@.map_values(|s: String| s@) =~= links@.map_values(str_view()));
    }
    Info { preview, text, links, language }
}

} // verus!
