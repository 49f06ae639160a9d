//! The markup token stream the extraction engine consumes: opening tags
//! with their attributes, closing tags, and raw text runs.

use vstd::prelude::*;
use crate::text::str_eq;

verus! {

/// One markup token.
pub enum HtmlToken {
    /// An opening tag: name and attributes, each attribute a key with an
    /// optional value.
    Open(String, Vec<(String, Option<String>)>),
    /// A closing tag.
    Close(String),
    /// A raw text run between tags.
    Text(String),
}

/// The model of an attribute list.
pub type AttrsModel = Seq<(Seq<char>, Option<Seq<char>>)>;

/// The model of one markup token.
pub enum TokenModel {
    Open(Seq<char>, AttrsModel),
    Close(Seq<char>),
    Text(Seq<char>),
}

/// The model of one attribute.
pub open spec fn attr_model(a: (String, Option<String>)) -> (Seq<char>, Option<Seq<char>>) {
    (a.0@, crate::record::opt_text(a.1))
}

impl View for HtmlToken {
    type V = TokenModel;

    open spec fn view(&self) -> TokenModel {
        match self {
            HtmlToken::Open(n, attrs) => TokenModel::Open(
                n@,
                attrs@.map_values(|a: (String, Option<String>)| attr_model(a)),
            ),
            HtmlToken::Close(n) => TokenModel::Close(n@),
            HtmlToken::Text(t) => TokenModel::Text(t@),
        }
    }
}

/// From a position on, every character that lies inside a tag — from a
/// `<` up to the closing `>` — is ASCII.
pub open spec fn spec_tags_ascii_from(s: Seq<char>, i: int, inside: bool) -> bool
    decreases s.len() - i,
{
    if i < 0 || i >= s.len() {
        true
    } else {
        (inside ==> (s[i] as u32) < 128) && spec_tags_ascii_from(
            s,
            i + 1,
            if s[i] == '<' {
                true
            } else if s[i] == '>' {
                false
            } else {
                inside
            },
        )
    }
}

/// The subset of raw markup the tokenizer is relied on for: the page does
/// not begin with a stray `>`, and tag interiors are ASCII (text between
/// tags is unrestricted). Outside this subset the outside tokenizer can
/// index an empty slice or split a multi-byte character, so such pages
/// are rejected before it ever runs.
pub open spec fn spec_page_tokenizable(s: Seq<char>) -> bool {
    (s.len() > 0 ==> s[0] != '>') && spec_tags_ascii_from(s, 0, false)
}

/// Whether a page stays within the tokenizer's input subset.
pub fn page_tokenizable(s: &str) -> (r: bool)
    ensures
        r == spec_page_tokenizable(s@),
{
    let len = s.unicode_len();
    if len > 0 && s.get_char(0) == '>' {
        return false;
    }
    let mut i: usize = 0;
    let mut inside = false;
    while i < len
        invariant
            len == s@.len(),
            i <= len,
            len > 0 ==> s@[0] != '>',
            spec_tags_ascii_from(s@, 0, false) == spec_tags_ascii_from(s@, i as int, inside),
        decreases len - i,
    {
        let c = s.get_char(i);
        let ascii = (c as u32) < 128;
        if inside && !ascii {
            proof {
                assert(!spec_tags_ascii_from(s@, i as int, inside));
            }
            return false;
        }
        inside = if c == '<' {
            true
        } else if c == '>' {
            false
        } else {
            inside
        };
        i += 1;
    }
    true
}

/// The value of the first attribute with the given key, if that attribute
/// carries one.
pub open spec fn attr_value_spec(attrs: AttrsModel, key: Seq<char>) -> Option<Option<Seq<char>>>
    decreases attrs.len(),
{
    if attrs.len() == 0 {
        None
    } else if attrs[0].0 == key {
        Some(attrs[0].1)
    } else {
        attr_value_spec(attrs.drop_first(), key)
    }
}

/// Finds the first attribute with the given key.
pub fn attr_value(attrs: &Vec<(String, Option<String>)>, key: &str) -> (r: Option<
    Option<String>,
>)
    ensures
        match r {
            Some(v) => attr_value_spec(
                attrs@.map_values(|a: (String, Option<String>)| attr_model(a)),
                key@,
            ) == Some(crate::record::opt_text(v)),
            None => attr_value_spec(
                attrs@.map_values(|a: (String, Option<String>)| attr_model(a)),
                key@,
            ) is None,
        },
{
    let ghost model = attrs@.map_values(|a: (String, Option<String>)| attr_model(a));
    let mut i: usize = 0;
    proof {
        assert(model.skip(0) =~= model);
    }
    while i < attrs.len()
        invariant
            model == attrs@.map_values(|a: (String, Option<String>)| attr_model(a)),
            i <= attrs.len(),
            attr_value_spec(model, key@) == attr_value_spec(model.skip(i as int), key@),
        decreases attrs.len() - i,
    {
        proof {
            assert(model.skip(i as int)[0] == model[i as int]);
            assert(model.skip(i as int).drop_first() =~= model.skip(i as int + 1));
        }
        if str_eq(attrs[i].0.as_str(), key) {
            let r = match &attrs[i].1 {
                Some(v) => Some(Some(v.clone())),
                None => Some(None),
            };
            return r;
        }
        i += 1;
    }
    proof {
        assert(model.skip(attrs@.len() as int) =~= Seq::<(Seq<char>, Option<Seq<char>>)>::empty());
    }
    None
}

/// Whether an attribute list is exactly one key/value pair.
pub open spec fn attrs_are1(attrs: AttrsModel, k: Seq<char>, v: Seq<char>) -> bool {
    attrs == seq![(k, Some(v))]
}

/// Whether the attribute list is exactly the given single key/value pair.
pub fn attrs_match1(attrs: &Vec<(String, Option<String>)>, k: &str, v: &str) -> (r: bool)
    ensures
        r == attrs_are1(
            attrs@.map_values(|a: (String, Option<String>)| attr_model(a)),
            k@,
            v@,
        ),
{
    let ghost model = attrs@.map_values(|a: (String, Option<String>)| attr_model(a));
    if attrs.len() != 1 {
        proof {
            assert(model.len() != 1);
            assert(model != seq![(k@, Some(v@))]);
        }
        return false;
    }
    let ok = match &attrs[0].1 {
        Some(val) => str_eq(attrs[0].0.as_str(), k) && str_eq(val.as_str(), v),
        None => false,
    };
    proof {
        assert(model[0] == attr_model(attrs@[0]));
        if ok {
            assert(model =~= seq![(k@, Some(v@))]);
        } else {
            assert(model[0] != (k@, Some(v@)));
        }
    }
    ok
}

/// Whether the attribute at a position is the given key/value pair.
pub open spec fn attr_at_is(attrs: AttrsModel, i: int, k: Seq<char>, v: Seq<char>) -> bool {
    0 <= i < attrs.len() && attrs[i] == (k, Some(v))
}

/// Whether the attribute at a position is the given key/value pair.
pub fn attr_at_matches(attrs: &Vec<(String, Option<String>)>, i: usize, k: &str, v: &str) -> (r:
    bool)
    ensures
        r == attr_at_is(
            attrs@.map_values(|a: (String, Option<String>)| attr_model(a)),
            i as int,
            k@,
            v@,
        ),
{
    let ghost model = attrs@.map_values(|a: (String, Option<String>)| attr_model(a));
    if i >= attrs.len() {
        return false;
    }
    let ok = match &attrs[i].1 {
        Some(val) => str_eq(attrs[i].0.as_str(), k) && str_eq(val.as_str(), v),
        None => false,
    };
    proof {
        assert(model[i as int] == attr_model(attrs@[i as int]));
    }
    ok
}

} // verus!
