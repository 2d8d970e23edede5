//! The builtin safety properties and the reserved tag names.
use crate::configuration::{tag_model, Tag, TagModel, TagType};
use crate::strutil::str_eq;
use vstd::prelude::*;
use vstd::string::StringExecFns;

verus! {

/// The reserved grouping construct: not an ordinary obligation.
pub open spec fn spec_any_name() -> Seq<char> {
    "any"@
}

/// The one builtin obligation tag.
pub open spec fn spec_post_to_func_name() -> Seq<char> {
    "PostToFunc"@
}

pub open spec fn spec_is_builtin(name: Seq<char>) -> bool {
    name == spec_any_name() || name == spec_post_to_func_name()
}

/// Returns true if the tag name is reserved for builtin use.
pub fn is_builtin_tag(name: &str) -> (r: bool)
    ensures
        r == spec_is_builtin(name@),
{
    str_eq(name, "any") || str_eq(name, "PostToFunc")
}

/// What the builtin `PostToFunc` definition holds: one argument `func`,
/// kind precondition, a description template and its reference link.
pub open spec fn spec_is_post_to_func_tag(m: TagModel) -> bool {
    &&& m.args =~= seq!["func"@]
    &&& m.desc == Some("This function must be called after {func}."@)
    &&& m.expr is None
    &&& m.types =~= seq![TagType::Precond]
    &&& m.url == Some(
        "https://github.com/Artisan-Lab/tag-std/blob/main/Asterinas-safety-properties.md#11-posttofuncfunc"@,
    )
}

fn post_to_func() -> (t: Tag)
    ensures
        spec_is_post_to_func_tag(tag_model(&t)),
{
    let mut args: Vec<String> = Vec::new();
    args.push(String::from_str("func"));
    let t = Tag {
        args,
        desc: Some(String::from_str("This function must be called after {func}.")),
        expr: None,
        types: {
            let mut v: Vec<TagType> = Vec::new();
            v.push(TagType::Precond);
            v
        },
        url: Some(
            String::from_str(
                "https://github.com/Artisan-Lab/tag-std/blob/main/Asterinas-safety-properties.md#11-posttofuncfunc",
            ),
        ),
    };
    proof {
        assert(tag_model(&t).args =~= seq!["func"@]);
        assert(tag_model(&t).types =~= seq![TagType::Precond]);
    }
    t
}

/// Instances of builtin tags. `any` is excluded.
pub fn tags() -> (v: Vec<(&'static str, Tag)>)
    ensures
        v@.len() == 1,
        v@[0].0@ == spec_post_to_func_name(),
        spec_is_post_to_func_tag(tag_model(&v@[0].1)),
{
    let mut v: Vec<(&'static str, Tag)> = Vec::new();
    v.push(("PostToFunc", post_to_func()));
    v
}

} // verus!
