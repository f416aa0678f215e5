//! The repositories shown on the projects page.
//!
//! A repository is a directory with a `description` file of the form
//! `name;description`, and maybe a `banner.png`, which the site serves as
//! `dynamic/<directory name>_banner.png`.
use vstd::prelude::*;
use vstd::string::*;
use crate::request::{split, split_on, texts_view};
use crate::text::{chars_of, string_of};

verus! {

/// The name and the description in the text of a description file: its
/// first two `;`-separated fields; nothing when it has no `;`.
pub open spec fn description_fields(text: Seq<char>) -> Option<(Seq<char>, Seq<char>)> {
    let f = split(text, seq![';']);
    if f.len() >= 2 {
        Some((f[0], f[1]))
    } else {
        None
    }
}

/// Reads the name and the description of a repository from the text of
/// its description file.
pub fn parse_description(text: &str) -> (r: Option<(String, String)>)
    ensures
        r matches Some((n, d)) ==> description_fields(text@) == Some((n@, d@)),
        r is None ==> description_fields(text@) is None,
{
    let cs = chars_of(text);
    let semi: &[char] = &[';'];
    assert(semi@ == seq![';']);
    let fields = split_on(&cs, semi);
    if fields.len() < 2 {
        return None;
    }
    assert(texts_view(fields@)[0] == fields@[0]@);
    assert(texts_view(fields@)[1] == fields@[1]@);
    let name = string_of(&fields[0], 0, fields[0].len());
    let desc = string_of(&fields[1], 0, fields[1].len());
    assert(name@ =~= fields@[0]@);
    assert(desc@ =~= fields@[1]@);
    Some((name, desc))
}

/// The path, under `dynamic/`, that the banner of the repository in the
/// directory `root` is served from: the last `/`-separated piece of `root`
/// followed by `_banner.png`.
pub open spec fn banner_file(root: Seq<char>) -> Seq<char> {
    "dynamic/"@ + split(root, seq!['/']).last() + "_banner.png"@
}

/// The path that the banner of the repository in `root` is served from.
pub fn banner_path(root: &str) -> (r: String)
    ensures
        r@ == banner_file(root@),
{
    let cs = chars_of(root);
    let slash: &[char] = &['/'];
    assert(slash@ == seq!['/']);
    let pieces = split_on(&cs, slash);
    let k = pieces.len() - 1;
    assert(texts_view(pieces@)[k as int] == pieces@[k as int]@);
    let last = string_of(&pieces[k], 0, pieces[k].len());
    assert(last@ =~= pieces@[k as int]@);
    let mut r = String::new();
    r.append("dynamic/");
    r.append(last.as_str());
    r.append("_banner.png");
    proof {
        reveal_strlit("dynamic/");
        reveal_strlit("_banner.png");
    }
    r
}

} // verus!
