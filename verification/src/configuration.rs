//! Safety-property definitions and the process-wide tag registry.
//!
//! A specification document supplies named tags; `load` merges any number of
//! documents with the builtin tags, rejecting redefinitions, and the result
//! is an immutable registry consulted by name.
use crate::strutil::{join_strings, str_eq, string_eq_str};
use vstd::prelude::*;
use vstd::string::StringExecFns;

pub mod builtin;

verus! {

/// One safety-property definition, as a specification document states it.
#[derive(Debug)]
pub struct Tag {
    /// Ordered placeholder names for the tag's arguments.
    pub args: Vec<String>,
    /// Optional description template using `{placeholder}` substitution.
    pub desc: Option<String>,
    /// Optional formal condition, opaque to this crate.
    pub expr: Option<String>,
    /// The kinds this tag supports; never empty once loaded.
    pub types: Vec<TagType>,
    /// Optional reference link.
    pub url: Option<String>,
}

/// The mathematical content of a [`Tag`]: every string as its characters.
pub struct TagModel {
    pub args: Seq<Seq<char>>,
    pub desc: Option<Seq<char>>,
    pub expr: Option<Seq<char>>,
    pub types: Seq<TagType>,
    pub url: Option<Seq<char>>,
}

pub open spec fn opt_view(s: Option<String>) -> Option<Seq<char>> {
    match s {
        Some(x) => Some(x@),
        None => None,
    }
}

pub open spec fn tag_model(t: &Tag) -> TagModel {
    TagModel {
        args: t.args.deep_view(),
        desc: opt_view(t.desc),
        expr: opt_view(t.expr),
        types: t.types@,
        url: opt_view(t.url),
    }
}

/// An exact copy of a tag.
#[verifier::loop_isolation(false)]
pub fn clone_tag(t: &Tag) -> (r: Tag)
    ensures
        tag_model(&r) == tag_model(t),
{
    let mut args: Vec<String> = Vec::new();
    let mut i: usize = 0;
    while i < t.args.len()
        invariant
            i <= t.args@.len(),
            args@.len() == i,
            forall|k: int| 0 <= k < i ==> args@[k]@ == t.args@[k]@,
        decreases t.args@.len() - i,
    {
        args.push(t.args[i].clone());
        i += 1;
    }
    let mut types: Vec<TagType> = Vec::new();
    let mut j: usize = 0;
    while j < t.types.len()
        invariant
            j <= t.types@.len(),
            types@ =~= t.types@.take(j as int),
        decreases t.types@.len() - j,
    {
        types.push(t.types[j]);
        j += 1;
    }
    let r = Tag {
        args,
        desc: match &t.desc {
            Some(s) => Some(s.clone()),
            None => None,
        },
        expr: match &t.expr {
            Some(s) => Some(s.clone()),
            None => None,
        },
        types,
        url: match &t.url {
            Some(s) => Some(s.clone()),
            None => None,
        },
    };
    proof {
        assert(r.args.deep_view() =~= t.args.deep_view());
        assert(r.types@ =~= t.types@);
    }
    r
}

/// The kind of requirement a tag states.
#[derive(Clone, Copy, Debug, PartialEq, Eq, Structural)]
pub enum TagType {
    Precond,
    Hazard,
    Option,
}

pub open spec fn spec_tag_type_of(s: Seq<char>) -> core::option::Option<TagType> {
    if s == "precond"@ {
        Some(TagType::Precond)
    } else if s == "hazard"@ {
        Some(TagType::Hazard)
    } else if s == "option"@ {
        Some(TagType::Option)
    } else {
        None
    }
}

/// The kind named by the given string, if any.
pub fn tag_type_of(s: &str) -> (r: Option<TagType>)
    ensures
        r == spec_tag_type_of(s@),
{
    if str_eq(s, "precond") {
        Some(TagType::Precond)
    } else if str_eq(s, "hazard") {
        Some(TagType::Hazard)
    } else if str_eq(s, "option") {
        Some(TagType::Option)
    } else {
        None
    }
}

impl TagType {
    /// The kind named by the given string; only the three kind names are
    /// accepted.
    pub fn new(s: &str) -> (r: Self)
        requires
            spec_tag_type_of(s@) is Some,
        ensures
            Some(r) == spec_tag_type_of(s@),
    {
        match tag_type_of(s) {
            Some(t) => t,
            None => {
                proof {
                    assert(false);
                }
                TagType::Precond
            },
        }
    }

    pub open spec fn spec_as_str(&self) -> Seq<char> {
        match self {
            TagType::Precond => "precond"@,
            TagType::Hazard => "Hazard"@,
            TagType::Option => "option"@,
        }
    }

    pub fn as_str(&self) -> (r: &'static str)
        ensures
            r@ == self.spec_as_str(),
    {
        match self {
            TagType::Precond => "precond",
            TagType::Hazard => "Hazard",
            TagType::Option => "option",
        }
    }
}

/// Informational package metadata of one specification document.
#[derive(Debug)]
pub struct Package {
    pub name: String,
    pub version: Option<String>,
    pub crate_name: Option<String>,
}

/// Documentation-generation options; merged over documents by monotonic OR.
#[derive(Clone, Copy, Debug, PartialEq, Eq, Structural)]
pub struct GenDocOption {
    /// Generate a safety heading at the beginning.
    pub heading_safety_title: bool,
    /// Generate the tag name before its description.
    pub heading_tag: bool,
}

impl Default for GenDocOption {
    /// Both options start switched off.
    fn default() -> (r: Self)
        ensures
            r == (GenDocOption { heading_safety_title: false, heading_tag: false }),
    {
        GenDocOption { heading_safety_title: false, heading_tag: false }
    }
}

pub open spec fn spec_or_merge(a: GenDocOption, b: GenDocOption) -> GenDocOption {
    GenDocOption {
        heading_safety_title: a.heading_safety_title || b.heading_safety_title,
        heading_tag: a.heading_tag || b.heading_tag,
    }
}

impl GenDocOption {
    /// A flag ends up set when either side had it set.
    pub fn merge(&mut self, other: &Self)
        ensures
            *final(self) == spec_or_merge(*old(self), *other),
    {
        if other.heading_safety_title {
            self.heading_safety_title = true;
        }
        if other.heading_tag {
            self.heading_tag = true;
        }
    }
}

/// One specification document: tag definitions plus options.
#[derive(Debug)]
pub struct Configuration {
    pub package: Option<Package>,
    /// Tag definitions keyed by name, in document order.
    pub tag: Vec<(String, Tag)>,
    pub doc: GenDocOption,
}

/// One entry of the merged registry.
pub struct RegEntry {
    pub name: String,
    pub tag: Tag,
    /// File path where the tag is defined; `None` for builtin tags.
    pub src: Option<String>,
}

/// The merged, immutable universe of tags.
pub struct Registry {
    pub map: Vec<RegEntry>,
    pub doc: GenDocOption,
}

/// A failure while merging specification documents.
#[derive(Debug)]
pub enum LoadError {
    /// A document redefines a builtin tag of this name.
    BuiltinRedefined(String),
    /// A tag of this name is defined more than once.
    DuplicateTag(String),
}

pub open spec fn reg_contains(m: Seq<RegEntry>, name: Seq<char>) -> bool {
    exists|i: int| 0 <= i < m.len() && m[i].name@ == name
}

/// The tag stored under `name`, scanning entries in order.
pub open spec fn reg_find(m: Seq<RegEntry>, name: Seq<char>) -> Option<Tag>
    decreases m.len(),
{
    if m.len() == 0 {
        None
    } else if m[0].name@ == name {
        Some(m[0].tag)
    } else {
        reg_find(m.drop_first(), name)
    }
}

pub proof fn lemma_reg_find_contains(m: Seq<RegEntry>, name: Seq<char>)
    ensures
        reg_find(m, name) is Some <==> reg_contains(m, name),
    decreases m.len(),
{
    if m.len() > 0 {
        lemma_reg_find_contains(m.drop_first(), name);
        if m[0].name@ != name && reg_contains(m, name) {
            let i = choose|i: int| 0 <= i < m.len() && m[i].name@ == name;
            assert(m.drop_first()[i - 1].name@ == name);
        }
        if reg_contains(m.drop_first(), name) {
            let i = choose|i: int| 0 <= i < m.drop_first().len() && m.drop_first()[i].name@ == name;
            assert(m[i + 1].name@ == name);
        }
    }
}

pub proof fn lemma_reg_find_skip(m: Seq<RegEntry>, name: Seq<char>, i: int)
    requires
        0 <= i <= m.len(),
        forall|k: int| 0 <= k < i ==> m[k].name@ != name,
    ensures
        reg_find(m, name) == reg_find(m.subrange(i, m.len() as int), name),
    decreases i,
{
    if i > 0 {
        assert(m.drop_first() =~= m.subrange(1, m.len() as int));
        lemma_reg_find_skip(m.subrange(1, m.len() as int), name, i - 1);
        assert(m.subrange(1, m.len() as int).subrange(i - 1, m.len() - 1) =~= m.subrange(
            i,
            m.len() as int,
        ));
    } else {
        assert(m.subrange(0, m.len() as int) =~= m);
    }
}

/// Merging one document's tags into the accumulated entries: a builtin name
/// or an already-present name is a fatal load error, otherwise the entry is
/// appended in document order.
pub open spec fn spec_merge_tags(
    acc: Seq<RegEntry>,
    pairs: Seq<(String, Tag)>,
    src: String,
) -> Result<Seq<RegEntry>, LoadError>
    decreases pairs.len(),
{
    if pairs.len() == 0 {
        Ok(acc)
    } else {
        let (name, tag) = pairs[0];
        if builtin::spec_is_builtin(name@) {
            Err(LoadError::BuiltinRedefined(name))
        } else if reg_contains(acc, name@) {
            Err(LoadError::DuplicateTag(name))
        } else {
            spec_merge_tags(
                acc.push(RegEntry { name, tag, src: Some(src) }),
                pairs.drop_first(),
                src,
            )
        }
    }
}

/// Merging a sequence of documents, in order, folding tag entries and
/// OR-merging the documentation options.
pub open spec fn spec_merge_sources(
    acc: Seq<RegEntry>,
    doc: GenDocOption,
    sources: Seq<(Configuration, String)>,
) -> Result<(Seq<RegEntry>, GenDocOption), LoadError>
    decreases sources.len(),
{
    if sources.len() == 0 {
        Ok((acc, doc))
    } else {
        let (config, path) = sources[0];
        match spec_merge_tags(acc, config.tag@, path) {
            Err(e) => Err(e),
            Ok(m) => spec_merge_sources(m, spec_or_merge(doc, config.doc), sources.drop_first()),
        }
    }
}

/// What a fully merged registry looks like: no name twice.
pub open spec fn reg_wf(m: Seq<RegEntry>) -> bool {
    forall|i: int, j: int| 0 <= i < j < m.len() ==> m[i].name@ != m[j].name@
}

/// Entries in non-decreasing name order.
pub open spec fn reg_sorted(m: Seq<RegEntry>) -> bool {
    forall|i: int, j: int|
        0 <= i < j < m.len() ==> crate::strutil::spec_str_le(m[i].name@, m[j].name@)
}

/// Sorts entries by name; the entries themselves are kept, as a multiset.
#[verifier::loop_isolation(false)]
fn sort_entries(v: Vec<RegEntry>) -> (r: Vec<RegEntry>)
    ensures
        reg_sorted(r@),
        r@.to_multiset() == v@.to_multiset(),
{
    let mut out: Vec<RegEntry> = Vec::new();
    let mut rest = v;
    proof {
        broadcast use vstd::seq_lib::group_to_multiset_ensures;

        assert(out@.to_multiset().add(rest@.to_multiset()) =~= v@.to_multiset());
    }
    while rest.len() > 0
        invariant
            reg_sorted(out@),
            out@.to_multiset().add(rest@.to_multiset()) == v@.to_multiset(),
        decreases rest@.len(),
    {
        let ghost rest0 = rest@;
        let e = rest.remove(0);
        let mut i: usize = 0;
        while i < out.len() && crate::strutil::str_le(out[i].name.as_str(), e.name.as_str())
            invariant
                i <= out@.len(),
                forall|k: int| 0 <= k < i ==> crate::strutil::spec_str_le(out@[k].name@, e.name@),
            decreases out@.len() - i,
        {
            i += 1;
        }
        let ghost before = out@;
        let ghost en = e.name@;
        out.insert(i, e);
        proof {
            broadcast use vstd::seq_lib::group_to_multiset_ensures;

            assert forall|p: int, q: int| 0 <= p < q < out@.len() implies crate::strutil::spec_str_le(
                out@[p].name@,
                out@[q].name@,
            ) by {
                if q < i {
                } else if p < i && q == i {
                } else if p == i {
                    crate::strutil::lemma_str_le_total(before[i as int].name@, en);
                    assert(crate::strutil::spec_str_le(en, before[i as int].name@));
                    if q - 1 > i {
                        assert(crate::strutil::spec_str_le(
                            before[i as int].name@,
                            before[q - 1].name@,
                        ));
                        crate::strutil::lemma_str_le_trans(
                            en,
                            before[i as int].name@,
                            before[q - 1].name@,
                        );
                    }
                }
            }
            let left = before.subrange(0, i as int);
            let right = before.subrange(i as int, before.len() as int);
            let ev = out@[i as int];
            assert(out@ =~= left + (seq![ev] + right));
            vstd::seq_lib::lemma_multiset_commutative(left, seq![ev] + right);
            vstd::seq_lib::lemma_multiset_commutative(seq![ev], right);
            assert(before =~= left + right);
            vstd::seq_lib::lemma_multiset_commutative(left, right);
            assert(seq![ev] =~= Seq::<RegEntry>::empty().push(ev));
            assert(seq![ev].to_multiset() =~= Seq::<RegEntry>::empty().to_multiset().insert(ev));
            assert(rest0.contains(ev)) by {
                assert(rest0[0] == ev);
            }
            assert(rest@ =~= rest0.remove(0));
            assert(rest@.to_multiset() =~= rest0.to_multiset().remove(ev));
            assert(out@.to_multiset().add(rest@.to_multiset()) =~= before.to_multiset().add(
                rest0.to_multiset(),
            ));
        }
    }
    proof {
        broadcast use vstd::seq_lib::group_to_multiset_ensures;

        assert(out@.to_multiset().add(rest@.to_multiset()) =~= out@.to_multiset());
    }
    out
}

/// Merges all specification documents plus the builtin tags, and sorts
/// the merged entries by tag name.
///
/// Fails if a document redefines a builtin name or any tag name is defined
/// twice; the error carries the offending name. With no documents the
/// registry holds exactly the builtin tags.
#[verifier::loop_isolation(false)]
pub fn load(sources: Vec<(Configuration, String)>) -> (r: Result<Registry, LoadError>)
    ensures
        match spec_merge_sources(Seq::empty(), GenDocOption::spec_default(), sources@) {
            Err(e) => r matches Err(e2) && e2 == e,
            Ok((m, d)) => r matches Ok(reg) && {
                &&& reg.doc == d
                &&& reg_sorted(reg.map@)
                &&& exists|b: RegEntry|
                    {
                        &&& b.name@ == builtin::spec_post_to_func_name()
                        &&& builtin::spec_is_post_to_func_tag(tag_model(&b.tag))
                        &&& b.src is None
                        &&& reg.map@.to_multiset() == (#[trigger] m.push(b)).to_multiset()
                    }
            },
        },
{
    let ghost orig = sources@;
    let mut sources = sources;
    let mut map: Vec<RegEntry> = Vec::new();
    let mut doc = GenDocOption::default();
    while sources.len() > 0
        invariant
            spec_merge_sources(Seq::empty(), GenDocOption::spec_default(), orig)
                == spec_merge_sources(map@, doc, sources@),
        decreases sources@.len(),
    {
        let ghost entry_sources = sources@;
        let (config, path) = sources.remove(0);
        proof {
            assert(sources@ =~= entry_sources.drop_first());
        }
        let mut pairs = config.tag;
        let ghost pre_sources = sources@;
        let ghost config_doc = config.doc;
        while pairs.len() > 0
            invariant
                spec_merge_sources(Seq::empty(), GenDocOption::spec_default(), orig) == (
                match spec_merge_tags(map@, pairs@, path) {
                    Err(e) => Err(e),
                    Ok(m) => spec_merge_sources(m, spec_or_merge(doc, config_doc), pre_sources),
                }),
            decreases pairs@.len(),
        {
            let ghost entry_pairs = pairs@;
            let (name, tag) = pairs.remove(0);
            proof {
                assert(pairs@ =~= entry_pairs.drop_first());
                assert(entry_pairs[0] == (name, tag));
            }
            if builtin::is_builtin_tag(name.as_str()) {
                proof {
                    assert(spec_merge_tags(map@, entry_pairs, path) == Err::<
                        Seq<RegEntry>,
                        LoadError,
                    >(LoadError::BuiltinRedefined(name)));
                }
                return Err(LoadError::BuiltinRedefined(name));
            }
            let mut found = false;
            let mut i: usize = 0;
            while i < map.len()
                invariant
                    i <= map@.len(),
                    !found,
                    forall|k: int| 0 <= k < i ==> map@[k].name@ != name@,
                decreases map@.len() - i,
            {
                if string_eq_str(&map[i].name, name.as_str()) {
                    found = true;
                    proof {
                        assert(map@[i as int].name@ == name@);
                        assert(reg_contains(map@, name@));
                        assert(spec_merge_tags(map@, entry_pairs, path) == Err::<
                            Seq<RegEntry>,
                            LoadError,
                        >(LoadError::DuplicateTag(name)));
                    }
                    return Err(LoadError::DuplicateTag(name));
                }
                i += 1;
            }
            proof {
                assert(!reg_contains(map@, name@));
            }
            map.push(RegEntry { name, tag, src: Some(path.clone()) });
        }
        doc.merge(&config.doc);
    }
    let mut builtins = builtin::tags();
    while builtins.len() > 0
        invariant
            spec_merge_sources(Seq::empty(), GenDocOption::spec_default(), orig) matches Ok((m, d))
                && {
                &&& map@.len() >= m.len()
                &&& map@.subrange(0, m.len() as int) == m
                &&& doc == d
                &&& forall|k: int|
                    m.len() <= k < map@.len() ==> {
                        &&& map@[k].name@ == builtin::spec_post_to_func_name()
                        &&& builtin::spec_is_post_to_func_tag(tag_model(&map@[k].tag))
                        &&& map@[k].src is None
                    }
                &&& map@.len() + builtins@.len() == m.len() + 1
                &&& builtins@.len() <= 1
                &&& forall|k: int|
                    0 <= k < builtins@.len() ==> {
                        &&& builtins@[k].0@ == builtin::spec_post_to_func_name()
                        &&& builtin::spec_is_post_to_func_tag(tag_model(&builtins@[k].1))
                    }
            },
        decreases builtins@.len(),
    {
        let (name, tag) = builtins.remove(0);
        map.push(RegEntry { name: name.to_owned(), tag, src: None });
    }
    let ghost pre_sort = map@;
    let ghost b = map@.last();
    let map = sort_entries(map);
    proof {
        let m = spec_merge_sources(Seq::empty(), GenDocOption::spec_default(), orig)->Ok_0.0;
        assert(pre_sort =~= m.push(b));
        assert(map@.to_multiset() == m.push(b).to_multiset());
    }
    Ok(Registry { map, doc })
}

impl GenDocOption {
    /// The default option value, spelled out for contracts.
    pub open spec fn spec_default() -> GenDocOption {
        GenDocOption { heading_safety_title: false, heading_tag: false }
    }
}

/// Whether a document defines a tag of the given name.
pub open spec fn pairs_contains(pairs: Seq<(String, Tag)>, name: Seq<char>) -> bool {
    exists|i: int| 0 <= i < pairs.len() && pairs[i].0@ == name
}

proof fn lemma_merge_tags_ok_contains(
    acc: Seq<RegEntry>,
    pairs: Seq<(String, Tag)>,
    src: String,
    name: Seq<char>,
)
    requires
        spec_merge_tags(acc, pairs, src) is Ok,
        pairs_contains(pairs, name),
    ensures
        reg_contains(spec_merge_tags(acc, pairs, src)->Ok_0, name),
    decreases pairs.len(),
{
    let (n0, t0) = pairs[0];
    let acc2 = acc.push(RegEntry { name: n0, tag: t0, src: Some(src) });
    if n0@ == name {
        lemma_merge_tags_keeps(acc2, pairs.drop_first(), src, name);
        assert(acc2[acc.len() as int].name@ == name);
        assert(reg_contains(acc2, name));
    } else {
        let i = choose|i: int| 0 <= i < pairs.len() && pairs[i].0@ == name;
        assert(pairs.drop_first()[i - 1].0@ == name);
        lemma_merge_tags_ok_contains(acc2, pairs.drop_first(), src, name);
    }
}

proof fn lemma_merge_tags_keeps(
    acc: Seq<RegEntry>,
    pairs: Seq<(String, Tag)>,
    src: String,
    name: Seq<char>,
)
    requires
        spec_merge_tags(acc, pairs, src) is Ok,
        reg_contains(acc, name),
    ensures
        reg_contains(spec_merge_tags(acc, pairs, src)->Ok_0, name),
    decreases pairs.len(),
{
    if pairs.len() > 0 {
        let (n0, t0) = pairs[0];
        let acc2 = acc.push(RegEntry { name: n0, tag: t0, src: Some(src) });
        let i = choose|i: int| 0 <= i < acc.len() && acc[i].name@ == name;
        assert(acc2[i].name@ == name);
        lemma_merge_tags_keeps(acc2, pairs.drop_first(), src, name);
    }
}

proof fn lemma_merge_tags_collision(
    acc: Seq<RegEntry>,
    pairs: Seq<(String, Tag)>,
    src: String,
    name: Seq<char>,
)
    requires
        reg_contains(acc, name),
        pairs_contains(pairs, name),
    ensures
        spec_merge_tags(acc, pairs, src) is Err,
    decreases pairs.len(),
{
    let (n0, t0) = pairs[0];
    if !builtin::spec_is_builtin(n0@) && !reg_contains(acc, n0@) {
        assert(n0@ != name);
        let acc2 = acc.push(RegEntry { name: n0, tag: t0, src: Some(src) });
        let i = choose|i: int| 0 <= i < acc.len() && acc[i].name@ == name;
        assert(acc2[i].name@ == name);
        let j = choose|j: int| 0 <= j < pairs.len() && pairs[j].0@ == name;
        assert(pairs.drop_first()[j - 1].0@ == name);
        lemma_merge_tags_collision(acc2, pairs.drop_first(), src, name);
    }
}

/// Law: a tag name defined in two specification documents makes the merge
/// fail, in whichever order the two documents are loaded; the outcome never
/// silently keeps either definition.
pub proof fn lemma_duplicate_across_sources_fails(
    c1: Configuration,
    p1: String,
    c2: Configuration,
    p2: String,
    name: Seq<char>,
)
    requires
        pairs_contains(c1.tag@, name),
        pairs_contains(c2.tag@, name),
    ensures
        spec_merge_sources(Seq::empty(), GenDocOption::spec_default(), seq![(c1, p1), (c2, p2)])
            is Err,
        spec_merge_sources(Seq::empty(), GenDocOption::spec_default(), seq![(c2, p2), (c1, p1)])
            is Err,
{
    lemma_one_order_fails(c1, p1, c2, p2, name);
    lemma_one_order_fails(c2, p2, c1, p1, name);
}

proof fn lemma_one_order_fails(
    ca: Configuration,
    pa: String,
    cb: Configuration,
    pb: String,
    name: Seq<char>,
)
    requires
        pairs_contains(ca.tag@, name),
        pairs_contains(cb.tag@, name),
    ensures
        spec_merge_sources(Seq::empty(), GenDocOption::spec_default(), seq![(ca, pa), (cb, pb)])
            is Err,
{
    let ss = seq![(ca, pa), (cb, pb)];
    assert(ss[0] == (ca, pa));
    let step1 = spec_merge_tags(Seq::empty(), ca.tag@, pa);
    if step1 is Ok {
        let m1 = step1->Ok_0;
        lemma_merge_tags_ok_contains(Seq::empty(), ca.tag@, pa, name);
        lemma_merge_tags_collision(m1, cb.tag@, pb, name);
        assert(ss.drop_first() =~= seq![(cb, pb)]);
        assert(ss.drop_first()[0] == (cb, pb));
        let d1 = spec_or_merge(GenDocOption::spec_default(), ca.doc);
        assert(spec_merge_sources(m1, d1, ss.drop_first()) is Err);
    }
}

/// Law: with no specification documents at all, the merge succeeds with no
/// user entries and the default documentation options, so the loaded
/// registry holds exactly the builtin tags.
pub proof fn lemma_load_of_nothing()
    ensures
        spec_merge_sources(
            Seq::empty(),
            GenDocOption::spec_default(),
            Seq::<(Configuration, String)>::empty(),
        ) == Ok::<_, LoadError>((Seq::<RegEntry>::empty(), GenDocOption::spec_default())),
{
}

proof fn lemma_merge_tags_wf(acc: Seq<RegEntry>, pairs: Seq<(String, Tag)>, src: String)
    requires
        spec_merge_tags(acc, pairs, src) is Ok,
        reg_wf(acc),
        forall|i: int| 0 <= i < acc.len() ==> !builtin::spec_is_builtin(#[trigger] acc[i].name@),
    ensures
        reg_wf(spec_merge_tags(acc, pairs, src)->Ok_0),
        forall|i: int|
            0 <= i < spec_merge_tags(acc, pairs, src)->Ok_0.len() ==> !builtin::spec_is_builtin(
                #[trigger] spec_merge_tags(acc, pairs, src)->Ok_0[i].name@,
            ),
    decreases pairs.len(),
{
    if pairs.len() > 0 {
        let (name, tag) = pairs[0];
        let acc2 = acc.push(RegEntry { name, tag, src: Some(src) });
        assert(!reg_contains(acc, name@));
        assert forall|i: int, j: int| 0 <= i < j < acc2.len() implies acc2[i].name@
            != acc2[j].name@ by {
            if j == acc.len() {
                assert(acc2[i] == acc[i]);
                if acc[i].name@ == name@ {
                    assert(reg_contains(acc, name@));
                }
            }
        }
        lemma_merge_tags_wf(acc2, pairs.drop_first(), src);
    }
}

proof fn lemma_merge_sources_wf(
    acc: Seq<RegEntry>,
    doc: GenDocOption,
    sources: Seq<(Configuration, String)>,
)
    requires
        spec_merge_sources(acc, doc, sources) is Ok,
        reg_wf(acc),
        forall|i: int| 0 <= i < acc.len() ==> !builtin::spec_is_builtin(#[trigger] acc[i].name@),
    ensures
        reg_wf(spec_merge_sources(acc, doc, sources)->Ok_0.0),
        forall|i: int|
            0 <= i < spec_merge_sources(acc, doc, sources)->Ok_0.0.len()
                ==> !builtin::spec_is_builtin(
                #[trigger] spec_merge_sources(acc, doc, sources)->Ok_0.0[i].name@,
            ),
    decreases sources.len(),
{
    if sources.len() > 0 {
        let (config, path) = sources[0];
        lemma_merge_tags_wf(acc, config.tag@, path);
        lemma_merge_sources_wf(
            spec_merge_tags(acc, config.tag@, path)->Ok_0,
            spec_or_merge(doc, config.doc),
            sources.drop_first(),
        );
    }
}

/// Law: a merge that succeeds defines no tag name twice, and no user entry
/// uses a builtin name, so appending the builtin tags keeps every name in
/// the loaded registry unique.
pub proof fn lemma_loaded_registry_unique(sources: Seq<(Configuration, String)>)
    requires
        spec_merge_sources(Seq::empty(), GenDocOption::spec_default(), sources) is Ok,
    ensures
        ({
            let m = spec_merge_sources(Seq::empty(), GenDocOption::spec_default(), sources)
                ->Ok_0.0;
            &&& reg_wf(m)
            &&& forall|i: int|
                0 <= i < m.len() ==> !builtin::spec_is_builtin(#[trigger] m[i].name@)
        }),
{
    lemma_merge_sources_wf(Seq::empty(), GenDocOption::spec_default(), sources);
}

/// Looks a tag up; the name must be defined.
pub fn get_tag<'a>(reg: &'a Registry, name: &str) -> (r: &'a Tag)
    requires
        reg_contains(reg.map@, name@),
    ensures
        Some(*r) == reg_find(reg.map@, name@),
{
    proof {
        lemma_reg_find_contains(reg.map@, name@);
    }
    match get_tag_opt(reg, name) {
        Some(t) => t,
        None => {
            proof {
                assert(false);
            }
            &reg.map[0].tag
        },
    }
}

/// Looks a tag up, returning `None` when the name is not defined.
pub fn get_tag_opt<'a>(reg: &'a Registry, name: &str) -> (r: Option<&'a Tag>)
    ensures
        match r {
            Some(t) => reg_find(reg.map@, name@) == Some(*t),
            None => reg_find(reg.map@, name@) is None,
        },
{
    let mut i: usize = 0;
    while i < reg.map.len()
        invariant
            i <= reg.map@.len(),
            forall|k: int| 0 <= k < i ==> reg.map@[k].name@ != name@,
        decreases reg.map@.len() - i,
    {
        if string_eq_str(&reg.map[i].name, name) {
            proof {
                lemma_reg_find_skip(reg.map@, name@, i as int);
                assert(reg.map@.subrange(i as int, reg.map@.len() as int)[0] == reg.map@[i as int]);
            }
            return Some(&reg.map[i].tag);
        }
        i += 1;
    }
    proof {
        lemma_reg_find_skip(reg.map@, name@, reg.map@.len() as int);
    }
    None
}

/// The merged documentation-generation options.
pub fn doc_option(reg: &Registry) -> (r: GenDocOption)
    ensures
        r == reg.doc,
{
    reg.doc
}

/// One tag as the registry knows it, with its name.
pub struct DefinedTag {
    pub name: String,
    pub args: Tag,
}

impl DefinedTag {
    /// The tag's signature: its name, with the declared argument names in
    /// parentheses when there are any.
    pub fn hover_detail(&self) -> (r: String)
        ensures
            r@ == if self.args.args@.len() == 0 {
                self.name@
            } else {
                self.name@ + "("@ + crate::strutil::spec_join(self.args.args.deep_view(), ", "@)
                    + ")"@
            },
    {
        if self.args.args.len() == 0 {
            self.name.clone()
        } else {
            let args = join_strings(&self.args.args, ", ");
            let mut r = self.name.clone();
            r.append("(");
            r.append(args.as_str());
            r.append(")");
            r
        }
    }

    /// The markdown block describing the tag: its kinds, then description,
    /// formal condition and link where present.
    #[verifier::loop_isolation(false)]
    pub fn hover_documentation(&self) -> (r: String)
        ensures
            r@ == spec_hover_documentation(tag_model(&self.args)),
    {
        let tag = &self.args;
        let mut doc = String::new();
        if tag.types.len() == 1 {
            doc.append("**type**: ");
        } else {
            doc.append("**types**: ");
        }
        let mut names: Vec<String> = Vec::new();
        let mut i: usize = 0;
        while i < tag.types.len()
            invariant
                i <= tag.types@.len(),
                names@.len() == i,
                forall|k: int| 0 <= k < i ==> names@[k]@ == tag.types@[k].spec_as_str(),
            decreases tag.types@.len() - i,
        {
            names.push(tag.types[i].as_str().to_owned());
            i += 1;
        }
        proof {
            assert(names.deep_view() =~= tag.types@.map(|k: int, t: TagType| t.spec_as_str()));
        }
        let joined = join_strings(&names, ", ");
        doc.append(joined.as_str());
        doc.append("\n\n");
        if let Some(desc) = &tag.desc {
            doc.append("**desc**: ");
            doc.append(desc.as_str());
            doc.append("\n\n");
        }
        if let Some(expr) = &tag.expr {
            doc.append("**expr**: ");
            doc.append(expr.as_str());
            doc.append("\n\n");
        }
        if let Some(url) = &tag.url {
            doc.append("**url**: <");
            doc.append(url.as_str());
            doc.append(">\n");
        }
        doc
    }
}

/// The rendering `hover_documentation` produces, over the tag's model.
pub open spec fn spec_hover_documentation(m: TagModel) -> Seq<char> {
    let field = if m.types.len() == 1 {
        "**type**: "@
    } else {
        "**types**: "@
    };
    let kinds = crate::strutil::spec_join(m.types.map(|k: int, t: TagType| t.spec_as_str()), ", "@);
    let head = field + kinds + "\n\n"@;
    let with_desc = match m.desc {
        Some(d) => head + "**desc**: "@ + d + "\n\n"@,
        None => head,
    };
    let with_expr = match m.expr {
        Some(e) => with_desc + "**expr**: "@ + e + "\n\n"@,
        None => with_desc,
    };
    match m.url {
        Some(u) => with_expr + "**url**: <"@ + u + ">\n"@,
        None => with_expr,
    }
}

/// All tags the registry holds, in registry order.
#[verifier::loop_isolation(false)]
pub fn get_tags(reg: &Registry) -> (r: Vec<DefinedTag>)
    ensures
        r@.len() == reg.map@.len(),
        forall|i: int|
            0 <= i < r@.len() ==> {
                &&& r@[i].name@ == reg.map@[i].name@
                &&& tag_model(&r@[i].args) == tag_model(&reg.map@[i].tag)
            },
{
    let mut r: Vec<DefinedTag> = Vec::new();
    let mut i: usize = 0;
    while i < reg.map.len()
        invariant
            i <= reg.map@.len(),
            r@.len() == i,
            forall|k: int|
                0 <= k < i ==> {
                    &&& r@[k].name@ == reg.map@[k].name@
                    &&& tag_model(&r@[k].args) == tag_model(&reg.map@[k].tag)
                },
        decreases reg.map@.len() - i,
    {
        r.push(
            DefinedTag { name: reg.map[i].name.clone(), args: clone_tag(&reg.map[i].tag) },
        );
        i += 1;
    }
    r
}

} // verus!
