//! Per-definition obligation data and the discharge state machine.
//!
//! A definition's parsed obligations are split into a vanilla list (each
//! entry must be discharged) and alternative groups (one member each
//! suffices). `TagState` tracks which have been discharged at one call
//! site and reports what is left, once.
use crate::configuration::{clone_tag, reg_find, tag_model, Registry, Tag, TagModel};
use crate::safety::{
    parse_attr_and_get_properties, spec_args_in_any, spec_flat_props, spec_parse_attr,
    spec_property_reason, GroupV, PropV, PropertiesAndReason, SafetyAttrArgs,
};
use crate::strutil::{spec_join, string_eq_str, usize_to_string};
use vstd::prelude::*;
use vstd::string::StringExecFns;

verus! {

/// A pair of 64-bit hashes uniquely identifying a definition across the
/// analyzed program.
#[derive(Debug, Clone, Copy, PartialEq, Eq, Structural)]
pub struct PrimaryKey {
    pub hash1: u64,
    pub hash2: u64,
}

/// Raw per-definition material handed in by the program-representation
/// collaborator.
#[derive(Debug)]
pub struct Func {
    /// The literal text of every attached obligation attribute.
    pub tool_attrs: Vec<String>,
    /// Definition path, kept for debugging.
    pub def_path: String,
    /// Function source text without attributes, kept for debugging.
    pub function: String,
}

/// One definition's identity and raw attribute material.
#[derive(Debug)]
pub struct Data {
    pub hash: PrimaryKey,
    pub func: Func,
}

/// One obligation as the discharge machine sees it: its tag name, the
/// argument texts written at the declaration, and the registry's
/// definition of the tag if there is one. Identity is the name alone.
pub struct Property {
    pub name: String,
    pub args: Vec<String>,
    pub spec_tag: Option<Tag>,
}

/// The mathematical content of a discharge-level property.
pub struct PropModel {
    pub name: Seq<char>,
    pub args: Seq<Seq<char>>,
    pub tag: Option<TagModel>,
}

pub open spec fn prop_model(p: Property) -> PropModel {
    PropModel {
        name: p.name@,
        args: p.args.deep_view(),
        tag: match p.spec_tag {
            Some(t) => Some(tag_model(&t)),
            None => None,
        },
    }
}

/// The model of a flagged list.
pub open spec fn list_model(v: Seq<(Property, bool)>) -> Seq<(PropModel, bool)> {
    v.map(|k: int, x: (Property, bool)| (prop_model(x.0), x.1))
}

/// The model of a plain property list.
pub open spec fn props_model(v: Seq<Property>) -> Seq<PropModel> {
    v.map(|k: int, p: Property| prop_model(p))
}

/// The model of the alternative groups of a state.
pub open spec fn groups_model(gs: Seq<Vec<(Property, bool)>>) -> Seq<Seq<(PropModel, bool)>> {
    gs.map(|k: int, g: Vec<(Property, bool)>| list_model(g@))
}

/// The model of declared alternative groups.
pub open spec fn prop_groups_model(gs: Seq<Vec<Property>>) -> Seq<Seq<PropModel>> {
    gs.map(|k: int, g: Vec<Property>| props_model(g@))
}

/// Every group's members with a cleared flag each, one entry per distinct
/// name, first occurrence kept.
pub open spec fn spec_fresh_groups(gs: Seq<Seq<PropModel>>) -> Seq<Seq<(PropModel, bool)>> {
    gs.map(|k: int, g: Seq<PropModel>| spec_refresh_list(Seq::empty(), g))
}

impl Property {
    /// The obligation's tag name.
    pub fn name(&self) -> (r: &str)
        ensures
            r@ == self.name@,
    {
        self.name.as_str()
    }
}

/// An exact copy of a discharge-level property.
pub fn clone_prop(p: &Property) -> (r: Property)
    ensures
        prop_model(r) == prop_model(*p),
{
    let mut args: Vec<String> = Vec::new();
    let mut i: usize = 0;
    while i < p.args.len()
        invariant
            i <= p.args@.len(),
            args@.len() == i,
            forall|k: int| 0 <= k < i ==> args@[k]@ == p.args@[k]@,
        decreases p.args@.len() - i,
    {
        args.push(p.args[i].clone());
        i += 1;
    }
    let r = Property {
        name: p.name.clone(),
        args,
        spec_tag: match &p.spec_tag {
            Some(t) => Some(clone_tag(t)),
            None => None,
        },
    };
    proof {
        assert(r.args.deep_view() =~= p.args.deep_view());
    }
    r
}

/// A definition's obligations, partitioned for discharge tracking.
pub struct Properties {
    /// Each entry must be discharged individually.
    pub vanilla: Vec<Property>,
    /// Each group needs at least one member discharged.
    pub group_of_any: Vec<Vec<Property>>,
}

/// The first index in the list whose property has this name.
pub open spec fn spec_find_name(v: Seq<(PropModel, bool)>, name: Seq<char>) -> Option<int>
    decreases v.len(),
{
    if v.len() == 0 {
        None
    } else if v[0].0.name == name {
        Some(0)
    } else {
        match spec_find_name(v.drop_first(), name) {
            Some(i) => Some(i + 1),
            None => None,
        }
    }
}

pub proof fn lemma_find_name_props(v: Seq<(PropModel, bool)>, name: Seq<char>)
    ensures
        match spec_find_name(v, name) {
            Some(i) => 0 <= i < v.len() && v[i].0.name == name && forall|k: int|
                0 <= k < i ==> v[k].0.name != name,
            None => forall|k: int| 0 <= k < v.len() ==> v[k].0.name != name,
        },
    decreases v.len(),
{
    if v.len() > 0 && v[0].0.name != name {
        lemma_find_name_props(v.drop_first(), name);
        assert forall|k: int| 1 <= k < v.len() implies v.drop_first()[k - 1] == v[k] by {}
    }
}

/// The state after refreshing with a vanilla list: one flag per distinct
/// name, first occurrence kept, all flags clear.
pub open spec fn spec_refresh_list(acc: Seq<(PropModel, bool)>, ps: Seq<PropModel>) -> Seq<
    (PropModel, bool),
>
    decreases ps.len(),
{
    if ps.len() == 0 {
        acc
    } else {
        let p = ps[0];
        if spec_find_name(acc, p.name) is Some {
            spec_refresh_list(acc, ps.drop_first())
        } else {
            spec_refresh_list(acc.push((p, false)), ps.drop_first())
        }
    }
}

/// Discharging a name across the alternative groups, in order: a group
/// without the name is kept; one holding it with the flag still clear gets
/// the flag set; one holding it already set stops the walk with an error,
/// the earlier groups keeping their new flags.
pub open spec fn spec_discharge_groups(gs: Seq<Seq<(PropModel, bool)>>, name: Seq<char>) -> Result<
    Seq<Seq<(PropModel, bool)>>,
    Seq<Seq<(PropModel, bool)>>,
>
    decreases gs.len(),
{
    if gs.len() == 0 {
        Ok(Seq::empty())
    } else {
        let g = gs[0];
        match spec_find_name(g, name) {
            None => match spec_discharge_groups(gs.drop_first(), name) {
                Ok(r) => Ok(seq![g] + r),
                Err(r) => Err(seq![g] + r),
            },
            Some(i) => {
                if g[i].1 {
                    Err(gs)
                } else {
                    let g2 = g.update(i, (g[i].0, true));
                    match spec_discharge_groups(gs.drop_first(), name) {
                        Ok(r) => Ok(seq![g2] + r),
                        Err(r) => Err(seq![g2] + r),
                    }
                }
            },
        }
    }
}

/// Tracks, per analyzed definition, which obligations have been
/// discharged.
pub struct TagState {
    /// Each vanilla obligation with its discharged flag; names unique.
    pub vanilla: Vec<(Property, bool)>,
    /// Each alternative group with per-member flags.
    pub group_of_any: Vec<Vec<(Property, bool)>>,
    /// Set once the undischarged report has been produced.
    pub undischarged: bool,
}

impl TagState {
    /// An empty state with no obligations loaded.
    pub fn new() -> (r: TagState)
        ensures
            r.vanilla@.len() == 0,
            r.group_of_any@.len() == 0,
            !r.undischarged,
    {
        TagState { vanilla: Vec::new(), group_of_any: Vec::new(), undischarged: false }
    }

    /// Drops all obligations and clears the report latch.
    pub fn clear(&mut self)
        ensures
            final(self).vanilla@.len() == 0,
            final(self).group_of_any@.len() == 0,
            !final(self).undischarged,
    {
        self.vanilla.clear();
        self.group_of_any.clear();
        self.undischarged = false;
    }

    /// Loads a definition's obligations afresh: every flag clear, the
    /// latch reset; a vanilla name occurring twice keeps its first entry.
    #[verifier::loop_isolation(false)]
    pub fn refresh(&mut self, props: &Properties)
        ensures
            list_model(final(self).vanilla@) == spec_refresh_list(
                Seq::empty(),
                props_model(props.vanilla@),
            ),
            groups_model(final(self).group_of_any@) == spec_fresh_groups(
                prop_groups_model(props.group_of_any@),
            ),
            !final(self).undischarged,
    {
        self.clear();
        let ghost psv = props_model(props.vanilla@);
        proof {
            assert(list_model(self.vanilla@) =~= Seq::<(PropModel, bool)>::empty());
            assert(psv.subrange(0, psv.len() as int) =~= psv);
        }
        let mut i: usize = 0;
        while i < props.vanilla.len()
            invariant
                i <= psv.len(),
                psv.len() == props.vanilla@.len(),
                spec_refresh_list(Seq::empty(), psv) == spec_refresh_list(
                    list_model(self.vanilla@),
                    psv.subrange(i as int, psv.len() as int),
                ),
                self.group_of_any@.len() == 0,
                !self.undischarged,
            decreases psv.len() - i,
        {
            let ghost rem = psv.subrange(i as int, psv.len() as int);
            proof {
                assert(rem[0] == psv[i as int]);
                assert(rem.drop_first() =~= psv.subrange(i + 1, psv.len() as int));
            }
            let p = &props.vanilla[i];
            let ghost cur = list_model(self.vanilla@);
            let mut found = false;
            let mut k: usize = 0;
            while k < self.vanilla.len()
                invariant
                    k <= self.vanilla@.len(),
                    !found,
                    forall|j: int| 0 <= j < k ==> list_model(self.vanilla@)[j].0.name != p.name@,
                decreases self.vanilla@.len() - k,
            {
                if string_eq_str(&self.vanilla[k].0.name, p.name.as_str()) {
                    found = true;
                    proof {
                        assert(list_model(self.vanilla@)[k as int].0.name == p.name@);
                    }
                    break ;
                }
                k += 1;
            }
            proof {
                lemma_find_name_props(cur, psv[i as int].name);
                assert(psv[i as int].name == p.name@);
            }
            if !found {
                let ghost pre = list_model(self.vanilla@);
                self.vanilla.push((clone_prop(p), false));
                proof {
                    assert(list_model(self.vanilla@) =~= pre.push((psv[i as int], false)));
                }
            }
            i += 1;
        }
        proof {
            assert(psv.subrange(psv.len() as int, psv.len() as int) =~= Seq::<PropModel>::empty());
        }
        let ghost pgv = spec_fresh_groups(prop_groups_model(props.group_of_any@));
        let mut gi: usize = 0;
        while gi < props.group_of_any.len()
            invariant
                gi <= props.group_of_any@.len(),
                pgv.len() == props.group_of_any@.len(),
                list_model(self.vanilla@) == spec_refresh_list(Seq::empty(), psv),
                !self.undischarged,
                groups_model(self.group_of_any@).len() == gi,
                forall|j: int|
                    0 <= j < gi ==> groups_model(self.group_of_any@)[j] == pgv[j],
            decreases props.group_of_any@.len() - gi,
        {
            let src = &props.group_of_any[gi];
            let ghost gsrc = props_model(src@);
            let mut g: Vec<(Property, bool)> = Vec::new();
            let mut k: usize = 0;
            proof {
                assert(list_model(g@) =~= Seq::<(PropModel, bool)>::empty());
                assert(gsrc.subrange(0, gsrc.len() as int) =~= gsrc);
            }
            while k < src.len()
                invariant
                    k <= gsrc.len(),
                    gsrc.len() == src@.len(),
                    spec_refresh_list(Seq::empty(), gsrc) == spec_refresh_list(
                        list_model(g@),
                        gsrc.subrange(k as int, gsrc.len() as int),
                    ),
                decreases gsrc.len() - k,
            {
                let ghost rem = gsrc.subrange(k as int, gsrc.len() as int);
                proof {
                    assert(rem[0] == gsrc[k as int]);
                    assert(rem.drop_first() =~= gsrc.subrange(k + 1, gsrc.len() as int));
                }
                let p = &src[k];
                let ghost cur = list_model(g@);
                let mut found = false;
                let mut q: usize = 0;
                while q < g.len()
                    invariant
                        q <= g@.len(),
                        !found,
                        forall|j: int| 0 <= j < q ==> list_model(g@)[j].0.name != p.name@,
                    decreases g@.len() - q,
                {
                    if string_eq_str(&g[q].0.name, p.name.as_str()) {
                        found = true;
                        proof {
                            assert(list_model(g@)[q as int].0.name == p.name@);
                        }
                        break ;
                    }
                    q += 1;
                }
                proof {
                    lemma_find_name_props(cur, gsrc[k as int].name);
                    assert(gsrc[k as int].name == p.name@);
                }
                if !found {
                    let ghost pre = list_model(g@);
                    g.push((clone_prop(p), false));
                    proof {
                        assert(list_model(g@) =~= pre.push((gsrc[k as int], false)));
                    }
                }
                k += 1;
            }
            proof {
                assert(gsrc.subrange(gsrc.len() as int, gsrc.len() as int) =~= Seq::<
                    PropModel,
                >::empty());
                assert(pgv[gi as int] == spec_refresh_list(Seq::empty(), gsrc));
            }
            self.group_of_any.push(g);
            gi += 1;
        }
        proof {
            assert(groups_model(self.group_of_any@) =~= pgv);
        }
    }
}

/// The message reported when an obligation is discharged twice.
pub open spec fn spec_already_msg(name: Seq<char>) -> Seq<char> {
    "\""@ + name + "\" has already been discharged"@
}

fn already_discharged_msg(name: &str) -> (r: String)
    ensures
        r@ == spec_already_msg(name@),
{
    let mut s = String::from_str("\"");
    s.append(name);
    s.append("\" has already been discharged");
    s
}

impl TagState {
    /// Marks the named obligation discharged. A vanilla match flips that
    /// entry's flag, and flipping it twice is an error. Otherwise every
    /// alternative group holding the name is flipped, in order, an
    /// already-set flag stopping the walk with the same error. A name
    /// found nowhere is silently ignored.
    #[verifier::loop_isolation(false)]
    pub fn discharge(&mut self, prop: &Property) -> (r: Result<(), String>)
        ensures
            final(self).undischarged == old(self).undischarged,
            match spec_find_name(list_model(old(self).vanilla@), prop.name@) {
                Some(i) => {
                    &&& final(self).group_of_any@ == old(self).group_of_any@
                    &&& if old(self).vanilla@[i].1 {
                        &&& r matches Err(m) && m@ == spec_already_msg(prop.name@)
                        &&& final(self).vanilla@ == old(self).vanilla@
                    } else {
                        &&& r is Ok
                        &&& list_model(final(self).vanilla@) == list_model(
                            old(self).vanilla@,
                        ).update(i, (list_model(old(self).vanilla@)[i].0, true))
                    }
                },
                None => {
                    &&& final(self).vanilla@ == old(self).vanilla@
                    &&& match spec_discharge_groups(
                        groups_model(old(self).group_of_any@),
                        prop.name@,
                    ) {
                        Ok(gm) => r is Ok && groups_model(final(self).group_of_any@) == gm,
                        Err(gm) => (r matches Err(m) && m@ == spec_already_msg(prop.name@))
                            && groups_model(final(self).group_of_any@) == gm,
                    }
                },
            },
    {
        let ghost oldv = list_model(self.vanilla@);
        let ghost name = prop.name@;
        proof {
            lemma_find_name_props(oldv, name);
        }
        let mut k: usize = 0;
        while k < self.vanilla.len()
            invariant
                k <= self.vanilla@.len(),
                forall|j: int| 0 <= j < k ==> oldv[j].0.name != name,
                self.vanilla@ == old(self).vanilla@,
                self.group_of_any@ == old(self).group_of_any@,
                self.undischarged == old(self).undischarged,
            decreases self.vanilla@.len() - k,
        {
            if string_eq_str(&self.vanilla[k].0.name, prop.name.as_str()) {
                proof {
                    assert(oldv[k as int].0.name == name);
                    assert(spec_find_name(oldv, name) == Some(k as int));
                }
                if self.vanilla[k].1 {
                    return Err(already_discharged_msg(prop.name.as_str()));
                }
                let ghost pre = self.vanilla@;
                let (p, _flag) = self.vanilla.remove(k);
                self.vanilla.insert(k, (p, true));
                proof {
                    assert(self.vanilla@ =~= pre.update(k as int, (pre[k as int].0, true)));
                    assert(list_model(self.vanilla@) =~= oldv.update(
                        k as int,
                        (oldv[k as int].0, true),
                    ));
                }
                return Ok(());
            }
            k += 1;
        }
        proof {
            assert(spec_find_name(oldv, name) is None);
        }
        let ghost goldm = groups_model(old(self).group_of_any@);
        let mut gi: usize = 0;
        proof {
            assert(goldm.subrange(0, goldm.len() as int) =~= goldm);
            assert(groups_model(self.group_of_any@).take(0) =~= Seq::<
                Seq<(PropModel, bool)>,
            >::empty());
        }
        while gi < self.group_of_any.len()
            invariant
                gi <= self.group_of_any@.len(),
                self.group_of_any@.len() == goldm.len(),
                self.vanilla@ == old(self).vanilla@,
                self.undischarged == old(self).undischarged,
                forall|j: int|
                    gi <= j < goldm.len() ==> groups_model(self.group_of_any@)[j] == goldm[j],
                spec_discharge_groups(goldm, name) == (match spec_discharge_groups(
                    goldm.subrange(gi as int, goldm.len() as int),
                    name,
                ) {
                    Ok(rr) => Ok(groups_model(self.group_of_any@).take(gi as int) + rr),
                    Err(rr) => Err(groups_model(self.group_of_any@).take(gi as int) + rr),
                }),
            decreases self.group_of_any@.len() - gi,
        {
            let ghost rem = goldm.subrange(gi as int, goldm.len() as int);
            let ghost curm = groups_model(self.group_of_any@);
            proof {
                assert(rem[0] == goldm[gi as int]);
                assert(goldm[gi as int] == curm[gi as int]);
                assert(rem.drop_first() =~= goldm.subrange(gi + 1, goldm.len() as int));
                lemma_find_name_props(goldm[gi as int], name);
            }
            let glen = self.group_of_any[gi].len();
            let mut j: usize = 0;
            let mut found = false;
            while j < glen
                invariant
                    j <= glen,
                    glen == self.group_of_any@[gi as int]@.len(),
                    gi < self.group_of_any@.len(),
                    !found,
                    forall|q: int|
                        0 <= q < j ==> list_model(self.group_of_any@[gi as int]@)[q].0.name
                            != name,
                decreases glen - j,
            {
                if string_eq_str(&self.group_of_any[gi][j].0.name, prop.name.as_str()) {
                    found = true;
                    break ;
                }
                j += 1;
            }
            if found {
                proof {
                    assert(list_model(self.group_of_any@[gi as int]@)[j as int].0.name == name);
                    assert(curm[gi as int] == list_model(self.group_of_any@[gi as int]@));
                    assert(spec_find_name(curm[gi as int], name) == Some(j as int));
                }
                if self.group_of_any[gi][j].1 {
                    proof {
                        assert(spec_discharge_groups(rem, name) == Err::<
                            Seq<Seq<(PropModel, bool)>>,
                            Seq<Seq<(PropModel, bool)>>,
                        >(rem));
                        assert(curm.take(gi as int) + rem =~= curm);
                    }
                    return Err(already_discharged_msg(prop.name.as_str()));
                }
                let mut g = self.group_of_any.remove(gi);
                let ghost gpre = g@;
                let (p, _flag) = g.remove(j);
                g.insert(j, (p, true));
                proof {
                    assert(g@ =~= gpre.update(j as int, (gpre[j as int].0, true)));
                }
                self.group_of_any.insert(gi, g);
                proof {
                    let g2 = curm[gi as int].update(
                        j as int,
                        (curm[gi as int][j as int].0, true),
                    );
                    assert(list_model(self.group_of_any@[gi as int]@) =~= g2);
                    assert(groups_model(self.group_of_any@) =~= curm.update(gi as int, g2));
                    lemma_discharge_step(curm, goldm, rem, name, gi as int, g2);
                }
                gi += 1;
            } else {
                proof {
                    assert(spec_find_name(curm[gi as int], name) is None);
                    lemma_discharge_step_keep(curm, goldm, rem, name, gi as int);
                }
                gi += 1;
            }
        }
        proof {
            assert(goldm.subrange(goldm.len() as int, goldm.len() as int) =~= Seq::<
                Seq<(PropModel, bool)>,
            >::empty());
            assert(groups_model(self.group_of_any@).take(goldm.len() as int) =~= groups_model(
                self.group_of_any@,
            ));
        }
        Ok(())
    }
}

proof fn lemma_discharge_step(
    curm: Seq<Seq<(PropModel, bool)>>,
    goldm: Seq<Seq<(PropModel, bool)>>,
    rem: Seq<Seq<(PropModel, bool)>>,
    name: Seq<char>,
    gi: int,
    g2: Seq<(PropModel, bool)>,
)
    requires
        0 <= gi < goldm.len(),
        curm.len() == goldm.len(),
        rem == goldm.subrange(gi, goldm.len() as int),
        rem.drop_first() == goldm.subrange(gi + 1, goldm.len() as int),
        curm[gi] == goldm[gi],
        spec_find_name(curm[gi], name) matches Some(j) && !curm[gi][j].1 && g2 == curm[gi].update(
            j,
            (curm[gi][j].0, true),
        ),
        spec_discharge_groups(goldm, name) == (match spec_discharge_groups(rem, name) {
            Ok(rr) => Ok(curm.take(gi) + rr),
            Err(rr) => Err(curm.take(gi) + rr),
        }),
    ensures
        spec_discharge_groups(goldm, name) == (match spec_discharge_groups(
            goldm.subrange(gi + 1, goldm.len() as int),
            name,
        ) {
            Ok(rr) => Ok(curm.update(gi, g2).take(gi + 1) + rr),
            Err(rr) => Err(curm.update(gi, g2).take(gi + 1) + rr),
        }),
{
    let rest = goldm.subrange(gi + 1, goldm.len() as int);
    match spec_discharge_groups(rest, name) {
        Ok(rr) => {
            assert(curm.take(gi) + (seq![g2] + rr) =~= curm.update(gi, g2).take(gi + 1) + rr);
        },
        Err(rr) => {
            assert(curm.take(gi) + (seq![g2] + rr) =~= curm.update(gi, g2).take(gi + 1) + rr);
        },
    }
}

proof fn lemma_discharge_step_keep(
    curm: Seq<Seq<(PropModel, bool)>>,
    goldm: Seq<Seq<(PropModel, bool)>>,
    rem: Seq<Seq<(PropModel, bool)>>,
    name: Seq<char>,
    gi: int,
)
    requires
        0 <= gi < goldm.len(),
        curm.len() == goldm.len(),
        rem == goldm.subrange(gi, goldm.len() as int),
        rem.drop_first() == goldm.subrange(gi + 1, goldm.len() as int),
        curm[gi] == goldm[gi],
        spec_find_name(curm[gi], name) is None,
        spec_discharge_groups(goldm, name) == (match spec_discharge_groups(rem, name) {
            Ok(rr) => Ok(curm.take(gi) + rr),
            Err(rr) => Err(curm.take(gi) + rr),
        }),
    ensures
        spec_discharge_groups(goldm, name) == (match spec_discharge_groups(
            goldm.subrange(gi + 1, goldm.len() as int),
            name,
        ) {
            Ok(rr) => Ok(curm.take(gi + 1) + rr),
            Err(rr) => Err(curm.take(gi + 1) + rr),
        }),
{
    let rest = goldm.subrange(gi + 1, goldm.len() as int);
    match spec_discharge_groups(rest, name) {
        Ok(rr) => {
            assert(curm.take(gi) + (seq![curm[gi]] + rr) =~= curm.take(gi + 1) + rr);
        },
        Err(rr) => {
            assert(curm.take(gi) + (seq![curm[gi]] + rr) =~= curm.take(gi + 1) + rr);
        },
    }
}

/// The still-undischarged vanilla obligations, in order.
pub open spec fn spec_undisch_vanilla(v: Seq<(PropModel, bool)>) -> Seq<PropModel>
    decreases v.len(),
{
    if v.len() == 0 {
        Seq::empty()
    } else if !v[0].1 {
        seq![v[0].0] + spec_undisch_vanilla(v.drop_first())
    } else {
        spec_undisch_vanilla(v.drop_first())
    }
}

/// Whether at least one member of the group has been discharged.
pub open spec fn spec_group_satisfied(g: Seq<(PropModel, bool)>) -> bool {
    exists|i: int| 0 <= i < g.len() && g[i].1
}

pub open spec fn spec_members(g: Seq<(PropModel, bool)>) -> Seq<PropModel> {
    g.map(|k: int, x: (PropModel, bool)| x.0)
}

pub open spec fn spec_names(ps: Seq<PropModel>) -> Seq<Seq<char>> {
    ps.map(|k: int, p: PropModel| p.name)
}

/// Each name wrapped in backticks.
pub open spec fn spec_ticked(names: Seq<Seq<char>>) -> Seq<Seq<char>> {
    names.map(|k: int, n: Seq<char>| "`"@ + n + "`"@)
}

/// The members of every group with no discharged member, in order.
pub open spec fn spec_failing_members(gs: Seq<Seq<(PropModel, bool)>>) -> Seq<Seq<PropModel>>
    decreases gs.len(),
{
    if gs.len() == 0 {
        Seq::empty()
    } else if !spec_group_satisfied(gs[0]) {
        seq![spec_members(gs[0])] + spec_failing_members(gs.drop_first())
    } else {
        spec_failing_members(gs.drop_first())
    }
}

/// One display line per group with no discharged member.
pub open spec fn spec_group_lines(gs: Seq<Seq<(PropModel, bool)>>) -> Seq<Seq<char>>
    decreases gs.len(),
{
    if gs.len() == 0 {
        Seq::empty()
    } else if !spec_group_satisfied(gs[0]) {
        seq![spec_join(spec_ticked(spec_names(spec_members(gs[0]))), ", or "@)]
            + spec_group_lines(gs.drop_first())
    } else {
        spec_group_lines(gs.drop_first())
    }
}

/// The display lines of a report: the joined vanilla names first if any
/// vanilla obligation is left, then one line per unsatisfied group.
pub open spec fn spec_displayed(
    vm: Seq<(PropModel, bool)>,
    gm: Seq<Seq<(PropModel, bool)>>,
) -> Seq<Seq<char>> {
    let uv = spec_undisch_vanilla(vm);
    let head = if uv.len() == 0 {
        Seq::<Seq<char>>::empty()
    } else {
        seq![spec_join(spec_ticked(spec_names(uv)), ", "@)]
    };
    head + spec_group_lines(gm)
}

/// What one `undischarged` call reports.
pub struct Undischarged {
    /// Each entry is a collection of tag names, already joined for display.
    pub v_tags_displayed: Vec<String>,
    /// Vanilla obligations that should have been discharged individually.
    pub v_sp: Vec<Property>,
    /// The members of each fully unsatisfied alternative group.
    pub v_any_sp: Vec<Vec<Property>>,
}

impl TagState {
    /// Computes the report of everything still undischarged, once: after
    /// the first call the latch is set and the report is empty, whatever
    /// the state holds.
    #[verifier::loop_isolation(false)]
    pub fn undischarged(&mut self) -> (r: Undischarged)
        ensures
            final(self).vanilla@ == old(self).vanilla@,
            final(self).group_of_any@ == old(self).group_of_any@,
            final(self).undischarged,
            old(self).undischarged ==> {
                &&& r.v_tags_displayed@.len() == 0
                &&& r.v_sp@.len() == 0
                &&& r.v_any_sp@.len() == 0
            },
            !old(self).undischarged ==> {
                &&& props_model(r.v_sp@) == spec_undisch_vanilla(list_model(old(self).vanilla@))
                &&& r.v_any_sp@.map(|k: int, g: Vec<Property>| props_model(g@))
                    == spec_failing_members(groups_model(old(self).group_of_any@))
                &&& r.v_tags_displayed.deep_view() == spec_displayed(
                    list_model(old(self).vanilla@),
                    groups_model(old(self).group_of_any@),
                )
            },
    {
        if self.undischarged {
            let r = Undischarged {
                v_tags_displayed: Vec::new(),
                v_sp: Vec::new(),
                v_any_sp: Vec::new(),
            };
            return r;
        }
        self.undischarged = true;
        let ghost vm = list_model(self.vanilla@);
        let ghost gm = groups_model(self.group_of_any@);
        let mut v_sp: Vec<Property> = Vec::new();
        let mut ticked: Vec<String> = Vec::new();
        let mut i: usize = 0;
        proof {
            assert(vm.subrange(0, vm.len() as int) =~= vm);
            assert(props_model(v_sp@) =~= Seq::<PropModel>::empty());
            assert(ticked.deep_view() =~= Seq::<Seq<char>>::empty());
        }
        while i < self.vanilla.len()
            invariant
                i <= vm.len(),
                vm.len() == self.vanilla@.len(),
                spec_undisch_vanilla(vm) == props_model(v_sp@) + spec_undisch_vanilla(
                    vm.subrange(i as int, vm.len() as int),
                ),
                ticked@.len() == v_sp@.len(),
                forall|q: int|
                    0 <= q < ticked@.len() ==> ticked@[q]@ == "`"@ + prop_model(
                        #[trigger] v_sp@[q],
                    ).name + "`"@,
            decreases vm.len() - i,
        {
            let ghost rem = vm.subrange(i as int, vm.len() as int);
            let ghost prev = props_model(v_sp@);
            proof {
                assert(rem[0] == vm[i as int]);
                assert(rem.drop_first() =~= vm.subrange(i + 1, vm.len() as int));
            }
            if !self.vanilla[i].1 {
                let p = clone_prop(&self.vanilla[i].0);
                let mut tick = String::from_str("`");
                tick.append(p.name.as_str());
                tick.append("`");
                v_sp.push(p);
                ticked.push(tick);
                proof {
                    assert(props_model(v_sp@) =~= prev.push(vm[i as int].0));
                    assert(prev + (seq![vm[i as int].0] + spec_undisch_vanilla(
                        rem.drop_first(),
                    )) =~= props_model(v_sp@) + spec_undisch_vanilla(rem.drop_first()));
                    assert(prop_model(v_sp@[v_sp@.len() - 1]).name == vm[i as int].0.name);
                }
            }
            i += 1;
        }
        proof {
            assert(vm.subrange(vm.len() as int, vm.len() as int) =~= Seq::<
                (PropModel, bool),
            >::empty());
            assert(props_model(v_sp@) + Seq::<PropModel>::empty() =~= props_model(v_sp@));
        }
        proof {
            let target = spec_ticked(spec_names(props_model(v_sp@)));
            assert(ticked.deep_view().len() == target.len());
            assert forall|q: int| 0 <= q < target.len() implies ticked.deep_view()[q]
                == target[q] by {
                assert(ticked.deep_view()[q] == ticked@[q]@);
                assert(props_model(v_sp@)[q] == prop_model(v_sp@[q]));
                assert(spec_names(props_model(v_sp@))[q] == props_model(v_sp@)[q].name);
            }
            assert(ticked.deep_view() =~= target);
        }
        let mut v_tags_displayed: Vec<String> = Vec::new();
        if ticked.len() > 0 {
            let joined = crate::strutil::join_strings(&ticked, ", ");
            v_tags_displayed.push(joined);
        }
        let ghost head_len = v_tags_displayed@.len() as int;
        let mut v_any_sp: Vec<Vec<Property>> = Vec::new();
        let mut gi: usize = 0;
        proof {
            assert(gm.subrange(0, gm.len() as int) =~= gm);
            assert(v_any_sp@.map(|k: int, g: Vec<Property>| props_model(g@)) =~= Seq::<
                Seq<PropModel>,
            >::empty());
            if ticked.len() > 0 {
                assert(v_tags_displayed.deep_view() =~= seq![
                    spec_join(spec_ticked(spec_names(spec_undisch_vanilla(vm))), ", "@),
                ]);
            } else {
                assert(spec_undisch_vanilla(vm).len() == 0);
                assert(v_tags_displayed.deep_view() =~= Seq::<Seq<char>>::empty());
            }
        }
        while gi < self.group_of_any.len()
            invariant
                gi <= gm.len(),
                gm.len() == self.group_of_any@.len(),
                spec_failing_members(gm) == v_any_sp@.map(|k: int, g: Vec<Property>| props_model(g@))
                    + spec_failing_members(gm.subrange(gi as int, gm.len() as int)),
                v_tags_displayed.deep_view() =~= spec_displayed(vm, gm.subrange(0, 0))
                    + spec_group_lines(gm.subrange(0, gi as int)),
            decreases gm.len() - gi,
        {
            let ghost rem = gm.subrange(gi as int, gm.len() as int);
            let ghost prevm = v_any_sp@.map(|k: int, g: Vec<Property>| props_model(g@));
            let ghost prevd = v_tags_displayed.deep_view();
            proof {
                assert(rem[0] == gm[gi as int]);
                assert(rem.drop_first() =~= gm.subrange(gi + 1, gm.len() as int));
                assert(gm.subrange(0, gi + 1) =~= gm.subrange(0, gi as int).push(gm[gi as int]));
            }
            let group = &self.group_of_any[gi];
            let mut satisfied = false;
            let mut j: usize = 0;
            while j < group.len()
                invariant
                    j <= group@.len(),
                    !satisfied,
                    forall|q: int| 0 <= q < j ==> !(#[trigger] group@[q]).1,
                decreases group@.len() - j,
            {
                if group[j].1 {
                    satisfied = true;
                    break ;
                }
                j += 1;
            }
            proof {
                if satisfied {
                    assert(group@[j as int].1);
                    assert(list_model(group@)[j as int].1);
                    assert(spec_group_satisfied(gm[gi as int]));
                } else {
                    assert(forall|q: int|
                        0 <= q < gm[gi as int].len() ==> !(#[trigger] gm[gi as int][q]).1);
                    assert(!spec_group_satisfied(gm[gi as int]));
                }
            }
            if !satisfied {
                let mut members: Vec<Property> = Vec::new();
                let mut gticked: Vec<String> = Vec::new();
                let mut k: usize = 0;
                while k < group.len()
                    invariant
                        k <= group@.len(),
                        members@.len() == k,
                        gticked@.len() == k,
                        forall|q: int|
                            0 <= q < k ==> prop_model((#[trigger] members@[q])) == list_model(
                                group@,
                            )[q].0,
                        forall|q: int|
                            0 <= q < k ==> gticked@[q]@ == "`"@ + prop_model(
                                #[trigger] members@[q],
                            ).name + "`"@,
                    decreases group@.len() - k,
                {
                    let p = clone_prop(&group[k].0);
                    let mut tick = String::from_str("`");
                    tick.append(p.name.as_str());
                    tick.append("`");
                    members.push(p);
                    gticked.push(tick);
                    proof {
                        assert(list_model(group@)[k as int].0 == prop_model(group@[k as int].0));
                    }
                    k += 1;
                }
                proof {
                    let mm = spec_members(gm[gi as int]);
                    assert(props_model(members@).len() == mm.len());
                    assert forall|q: int| 0 <= q < mm.len() implies props_model(members@)[q]
                        == mm[q] by {
                        assert(props_model(members@)[q] == prop_model(members@[q]));
                        assert(mm[q] == gm[gi as int][q].0);
                        assert(gm[gi as int] == list_model(group@));
                    }
                    assert(props_model(members@) =~= mm);
                    let targ = spec_ticked(spec_names(mm));
                    assert(gticked.deep_view().len() == targ.len());
                    assert forall|q: int| 0 <= q < targ.len() implies gticked.deep_view()[q]
                        == targ[q] by {
                        assert(gticked.deep_view()[q] == gticked@[q]@);
                        assert(spec_names(mm)[q] == mm[q].name);
                        assert(props_model(members@)[q] == prop_model(members@[q]));
                    }
                    assert(gticked.deep_view() =~= targ);
                }
                let line = crate::strutil::join_strings(&gticked, ", or ");
                v_any_sp.push(members);
                v_tags_displayed.push(line);
                proof {
                    assert(v_any_sp@.map(|k2: int, g: Vec<Property>| props_model(g@))
                        =~= prevm.push(spec_members(gm[gi as int])));
                    assert(prevm + (seq![spec_members(gm[gi as int])] + spec_failing_members(
                        rem.drop_first(),
                    )) =~= v_any_sp@.map(|k2: int, g: Vec<Property>| props_model(g@))
                        + spec_failing_members(rem.drop_first()));
                    assert(spec_group_lines(gm.subrange(0, gi + 1)) =~= spec_group_lines(
                        gm.subrange(0, gi as int),
                    ).push(spec_join(spec_ticked(spec_names(spec_members(gm[gi as int]))), ", or "@)))
                        by {
                        lemma_group_lines_push(gm.subrange(0, gi as int), gm[gi as int]);
                    }
                    assert(v_tags_displayed.deep_view() =~= prevd.push(
                        spec_join(spec_ticked(spec_names(spec_members(gm[gi as int]))), ", or "@),
                    ));
                }
            } else {
                proof {
                    assert(spec_group_lines(gm.subrange(0, gi + 1)) =~= spec_group_lines(
                        gm.subrange(0, gi as int),
                    )) by {
                        lemma_group_lines_push(gm.subrange(0, gi as int), gm[gi as int]);
                    }
                }
            }
            gi += 1;
        }
        proof {
            assert(gm.subrange(gm.len() as int, gm.len() as int) =~= Seq::<
                Seq<(PropModel, bool)>,
            >::empty());
            assert(v_any_sp@.map(|k: int, g: Vec<Property>| props_model(g@)) + Seq::<
                Seq<PropModel>,
            >::empty() =~= v_any_sp@.map(|k: int, g: Vec<Property>| props_model(g@)));
            assert(gm.subrange(0, gm.len() as int) =~= gm);
            assert(spec_displayed(vm, gm.subrange(0, 0)) + spec_group_lines(gm) =~= spec_displayed(
                vm,
                gm,
            )) by {
                assert(gm.subrange(0, 0) =~= Seq::<Seq<(PropModel, bool)>>::empty());
            }
        }
        Undischarged { v_tags_displayed, v_sp, v_any_sp }
    }
}

proof fn lemma_group_lines_push(gs: Seq<Seq<(PropModel, bool)>>, g: Seq<(PropModel, bool)>)
    ensures
        spec_group_lines(gs.push(g)) == if !spec_group_satisfied(g) {
            spec_group_lines(gs).push(
                spec_join(spec_ticked(spec_names(spec_members(g))), ", or "@),
            )
        } else {
            spec_group_lines(gs)
        },
    decreases gs.len(),
{
    if gs.len() == 0 {
        assert(gs.push(g)[0] == g);
        assert(gs.push(g).drop_first() =~= Seq::<Seq<(PropModel, bool)>>::empty());
        assert(spec_group_lines(Seq::<Seq<(PropModel, bool)>>::empty()) == Seq::<
            Seq<char>,
        >::empty());
        if !spec_group_satisfied(g) {
            let line = spec_join(spec_ticked(spec_names(spec_members(g))), ", or "@);
            assert(spec_group_lines(gs.push(g)) == seq![line] + Seq::<Seq<char>>::empty());
            assert(seq![line] + Seq::<Seq<char>>::empty() =~= spec_group_lines(gs).push(line));
        }
    } else {
        assert(gs.push(g)[0] == gs[0]);
        assert(gs.push(g).drop_first() =~= gs.drop_first().push(g));
        lemma_group_lines_push(gs.drop_first(), g);
        if !spec_group_satisfied(gs[0]) {
            let line0 = spec_join(spec_ticked(spec_names(spec_members(gs[0]))), ", or "@);
            if !spec_group_satisfied(g) {
                let line = spec_join(spec_ticked(spec_names(spec_members(g))), ", or "@);
                assert(seq![line0] + spec_group_lines(gs.drop_first()).push(line) =~= (seq![line0]
                    + spec_group_lines(gs.drop_first())).push(line));
            }
        }
    }
}

/// The number of obligations the groups of a report hold in all.
pub open spec fn spec_member_sum(any: Seq<Vec<Property>>) -> int
    decreases any.len(),
{
    if any.len() == 0 {
        0
    } else {
        any[0]@.len() + spec_member_sum(any.drop_first())
    }
}

proof fn lemma_member_sum_nonneg(any: Seq<Vec<Property>>)
    ensures
        spec_member_sum(any) >= 0,
    decreases any.len(),
{
    if any.len() > 0 {
        lemma_member_sum_nonneg(any.drop_first());
    }
}

/// The count clamped at two: all the title needs to know.
pub open spec fn min_2(n: int) -> int {
    if n < 2 {
        n
    } else {
        2
    }
}

/// How many obligation names a report carries: its vanilla entries plus
/// every member of every reported group.
pub open spec fn spec_name_count(u: &Undischarged) -> int {
    u.v_sp@.len() + spec_member_sum(u.v_any_sp@)
}

/// The report's title: empty with nothing to report; otherwise the display
/// lines joined by newlines, introduced by "Tag is"/"Tags are" chosen by
/// whether more than one obligation name appears, on one line for a single
/// entry.
pub open spec fn spec_title(d: Seq<Seq<char>>, many: bool) -> Seq<char> {
    if d.len() == 0 {
        Seq::empty()
    } else {
        let joined = spec_join(d, "\n"@);
        let nl = if d.len() == 1 {
            " "@
        } else {
            "\n"@
        };
        let plural = if many {
            "Tags are"@
        } else {
            "Tag is"@
        };
        plural + " not discharged:"@ + nl + joined
    }
}

/// The line describing one missing obligation.
pub open spec fn spec_name_with_args(p: PropModel) -> Seq<char> {
    if p.args.len() == 0 {
        p.name
    } else {
        p.name + "("@ + spec_join(p.args, ", "@) + ")"@
    }
}

/// The human explanation attached to one missing obligation: its rendered
/// description if the tag declares one, its link if any, a fixed sentence
/// otherwise.
pub open spec fn spec_info(p: PropModel) -> Seq<char> {
    match p.tag {
        None => "This SP has no description."@,
        Some(t) => match t.desc {
            Some(d) => {
                let rendered = crate::safety::spec_template_full(d, t.args, p.args);
                match t.url {
                    None => rendered,
                    Some(u) => rendered + "\n See "@ + u,
                }
            },
            None => match t.url {
                None => "This SP has no description."@,
                Some(u) => "See "@ + u,
            },
        },
    }
}

impl Property {
    /// The tag name with its written arguments, if any.
    pub fn name_with_args(&self) -> (r: String)
        ensures
            r@ == spec_name_with_args(prop_model(*self)),
    {
        if self.args.len() == 0 {
            self.name.clone()
        } else {
            let mut r = self.name.clone();
            r.append("(");
            let joined = crate::strutil::join_strings(&self.args, ", ");
            r.append(joined.as_str());
            r.append(")");
            r
        }
    }

    /// The description and link of this obligation, rendered.
    pub fn info(&self) -> (r: String)
        ensures
            r@ == spec_info(prop_model(*self)),
    {
        match &self.spec_tag {
            None => String::from_str("This SP has no description."),
            Some(tag) => match &tag.desc {
                Some(d) => {
                    let mut r = crate::safety::render_template(d.as_str(), &tag.args, &self.args);
                    match &tag.url {
                        None => r,
                        Some(u) => {
                            r.append("\n See ");
                            r.append(u.as_str());
                            r
                        },
                    }
                },
                None => match &tag.url {
                    None => String::from_str("This SP has no description."),
                    Some(u) => {
                        let mut r = String::from_str("See ");
                        r.append(u.as_str());
                        r
                    },
                },
            },
        }
    }
}

/// The detail line of one vanilla obligation.
pub open spec fn spec_info_line(p: PropModel) -> Seq<char> {
    "`"@ + spec_name_with_args(p) + "`: "@ + spec_info(p)
}

/// The detail lines of the alternative groups from index `idx` on, each
/// member prefixed with its group's index.
pub open spec fn spec_any_info_lines(any: Seq<Seq<PropModel>>, idx: int) -> Seq<Seq<char>>
    decreases any.len(),
{
    if any.len() == 0 {
        Seq::empty()
    } else {
        any[0].map(
            |k: int, p: PropModel|
                "[any#"@ + crate::strutil::spec_decimal(idx) + "] "@ + spec_info_line(p),
        ) + spec_any_info_lines(any.drop_first(), idx + 1)
    }
}

/// The backticked name-with-arguments and explanation of one obligation.
fn info_line(p: &Property) -> (r: String)
    ensures
        r@ == spec_info_line(prop_model(*p)),
{
    let mut line = String::from_str("`");
    let nwa = p.name_with_args();
    line.append(nwa.as_str());
    line.append("`: ");
    let inf = p.info();
    line.append(inf.as_str());
    line
}

impl Undischarged {
    /// Whether the report names more than one obligation.
    #[verifier::loop_isolation(false)]
    fn more_than_one_name(&self) -> (r: bool)
        ensures
            r == (spec_name_count(self) > 1),
    {
        let mut count: usize = if self.v_sp.len() >= 2 {
            2
        } else {
            self.v_sp.len()
        };
        let ghost anyv = self.v_any_sp@;
        let mut gi: usize = 0;
        proof {
            assert(anyv.subrange(0, anyv.len() as int) =~= anyv);
            lemma_member_sum_nonneg(anyv);
        }
        while gi < self.v_any_sp.len()
            invariant
                gi <= anyv.len(),
                anyv.len() == self.v_any_sp@.len(),
                count <= 2,
                min_2(spec_name_count(self)) == min_2(
                    count + spec_member_sum(anyv.subrange(gi as int, anyv.len() as int)),
                ),
            decreases anyv.len() - gi,
        {
            let ghost rem = anyv.subrange(gi as int, anyv.len() as int);
            proof {
                assert(rem[0] == anyv[gi as int]);
                assert(rem.drop_first() =~= anyv.subrange(gi + 1, anyv.len() as int));
                lemma_member_sum_nonneg(rem.drop_first());
            }
            let glen = self.v_any_sp[gi].len();
            if glen >= 2 - count {
                count = 2;
            } else {
                count = count + glen;
            }
            gi += 1;
        }
        proof {
            assert(anyv.subrange(anyv.len() as int, anyv.len() as int) =~= Seq::<
                Vec<Property>,
            >::empty());
        }
        count >= 2
    }

    /// The one-line or multi-line heading of the report.
    pub fn title(&self) -> (r: String)
        ensures
            r@ == spec_title(self.v_tags_displayed.deep_view(), spec_name_count(self) > 1),
    {
        if self.v_tags_displayed.len() == 0 {
            return String::new();
        }
        let joined = crate::strutil::join_strings(&self.v_tags_displayed, "\n");
        let plural = if self.more_than_one_name() {
            "Tags are"
        } else {
            "Tag is"
        };
        let nl = if self.v_tags_displayed.len() == 1 {
            " "
        } else {
            "\n"
        };
        let mut r = String::from_str(plural);
        r.append(" not discharged:");
        r.append(nl);
        r.append(joined.as_str());
        r
    }

    /// One detail line per missing obligation: the vanilla ones first, then
    /// each unsatisfied group's members prefixed by the group index.
    #[verifier::loop_isolation(false)]
    pub fn info(&self) -> (r: Vec<String>)
        ensures
            r.deep_view() == props_model(self.v_sp@).map(|k: int, p: PropModel| spec_info_line(p))
                + spec_any_info_lines(
                self.v_any_sp@.map(|k: int, g: Vec<Property>| props_model(g@)),
                0,
            ),
    {
        let mut r: Vec<String> = Vec::new();
        let ghost vline = props_model(self.v_sp@).map(|k: int, p: PropModel| spec_info_line(p));
        let mut i: usize = 0;
        while i < self.v_sp.len()
            invariant
                i <= self.v_sp@.len(),
                r@.len() == i,
                vline.len() == self.v_sp@.len(),
                forall|k: int| 0 <= k < i ==> (#[trigger] r@[k])@ == vline[k],
            decreases self.v_sp@.len() - i,
        {
            let p = &self.v_sp[i];
            let line = info_line(p);
            r.push(line);
            proof {
                assert(vline[i as int] == spec_info_line(prop_model(self.v_sp@[i as int])));
                assert(props_model(self.v_sp@)[i as int] == prop_model(self.v_sp@[i as int]));
            }
            i += 1;
        }
        let ghost anym = self.v_any_sp@.map(|k: int, g: Vec<Property>| props_model(g@));
        let mut gi: usize = 0;
        proof {
            assert(anym.subrange(0, anym.len() as int) =~= anym);
        }
        while gi < self.v_any_sp.len()
            invariant
                gi <= anym.len(),
                anym.len() == self.v_any_sp@.len(),
                r@.len() >= self.v_sp@.len(),
                forall|k: int| 0 <= k < vline.len() ==> (#[trigger] r@[k])@ == vline[k],
                r.deep_view().subrange(vline.len() as int, r@.len() as int)
                    + spec_any_info_lines(
                    anym.subrange(gi as int, anym.len() as int),
                    gi as int,
                ) == spec_any_info_lines(anym, 0),
                vline.len() == self.v_sp@.len(),
            decreases anym.len() - gi,
        {
            let ghost rem = anym.subrange(gi as int, anym.len() as int);
            let ghost donelines = r.deep_view().subrange(vline.len() as int, r@.len() as int);
            proof {
                assert(rem[0] == anym[gi as int]);
                assert(rem.drop_first() =~= anym.subrange(gi + 1, anym.len() as int));
            }
            let ghost chunk = anym[gi as int].map(
                |k: int, p: PropModel|
                    "[any#"@ + crate::strutil::spec_decimal(gi as int) + "] "@ + spec_info_line(p),
            );
            let group = &self.v_any_sp[gi];
            let idx_str = crate::strutil::usize_to_string(gi);
            let mut j: usize = 0;
            while j < group.len()
                invariant
                    j <= group@.len(),
                    chunk.len() == group@.len(),
                    r@.len() == vline.len() + donelines.len() + j,
                    forall|k: int| 0 <= k < vline.len() ==> (#[trigger] r@[k])@ == vline[k],
                    forall|k: int|
                        0 <= k < donelines.len() ==> (#[trigger] r@[vline.len() + k])@
                            == donelines[k],
                    forall|k: int|
                        0 <= k < j ==> (#[trigger] r@[vline.len() + donelines.len() + k])@
                            == chunk[k],
                decreases group@.len() - j,
            {
                let p = &group[j];
                let mut line = String::from_str("[any#");
                line.append(idx_str.as_str());
                line.append("] ");
                let il = info_line(p);
                line.append(il.as_str());
                r.push(line);
                proof {
                    assert(chunk[j as int] == "[any#"@ + crate::strutil::spec_decimal(gi as int)
                        + "] "@ + spec_info_line(prop_model(group@[j as int])));
                    assert(anym[gi as int] == props_model(group@));
                    assert(props_model(group@)[j as int] == prop_model(group@[j as int]));
                }
                j += 1;
            }
            proof {
                let newdone = r.deep_view().subrange(vline.len() as int, r@.len() as int);
                assert(newdone.len() == donelines.len() + chunk.len());
                assert forall|k: int| 0 <= k < newdone.len() implies newdone[k] == (donelines
                    + chunk)[k] by {
                    assert(newdone[k] == r.deep_view()[vline.len() + k]);
                    assert(r.deep_view()[vline.len() + k] == r@[vline.len() + k]@);
                    if k >= donelines.len() {
                        assert(r@[vline.len() + donelines.len() + (k - donelines.len())]@
                            == chunk[k - donelines.len()]);
                    }
                }
                assert(newdone =~= donelines + chunk);
                assert((donelines + chunk) + spec_any_info_lines(rem.drop_first(), gi + 1)
                    =~= donelines + (chunk + spec_any_info_lines(rem.drop_first(), gi + 1)));
            }
            gi += 1;
        }
        proof {
            assert(anym.subrange(anym.len() as int, anym.len() as int) =~= Seq::<
                Seq<PropModel>,
            >::empty());
            let done = r.deep_view().subrange(vline.len() as int, r@.len() as int);
            assert(done + Seq::<Seq<char>>::empty() =~= done);
            assert(r.deep_view().len() == vline.len() + done.len());
            assert forall|k: int| 0 <= k < r.deep_view().len() implies r.deep_view()[k] == (vline
                + spec_any_info_lines(anym, 0))[k] by {
                assert(r.deep_view()[k] == r@[k]@);
                if k >= vline.len() {
                    assert(done[k - vline.len()] == r@[k]@);
                }
            }
            assert(r.deep_view() =~= vline + spec_any_info_lines(anym, 0));
        }
        r
    }
}

/// The discharge-level form of a parsed property: its name and argument
/// texts, with the registry's definition of the tag when there is one.
pub open spec fn spec_to_prop(p: PropV, m: Seq<crate::configuration::RegEntry>) -> PropModel {
    PropModel {
        name: p.name,
        args: p.args,
        tag: match reg_find(m, p.name) {
            Some(t) => Some(tag_model(&t)),
            None => None,
        },
    }
}

/// The members one `any(...)` occurrence contributes.
pub open spec fn spec_members_of(sub: Seq<GroupV>, m: Seq<crate::configuration::RegEntry>) -> Seq<
    PropModel,
> {
    spec_flat_props(sub).map(|k: int, q: PropV| spec_to_prop(q, m))
}

/// Folding parsed properties into the partition: an `any` occurrence with
/// arguments becomes one alternative group of all its nested properties,
/// anything else is appended to the vanilla list. An `any` whose every
/// argument the grammar refuses contributes nothing: no empty group is
/// ever formed.
pub open spec fn spec_fold_props(
    vanilla: Seq<PropModel>,
    groups: Seq<Seq<PropModel>>,
    ps: Seq<PropV>,
    m: Seq<crate::configuration::RegEntry>,
) -> (Seq<PropModel>, Seq<Seq<PropModel>>)
    decreases ps.len(),
{
    if ps.len() == 0 {
        (vanilla, groups)
    } else {
        let p = ps[0];
        match spec_args_in_any(p) {
            Some(sub) => {
                let members = spec_members_of(sub, m);
                if members.len() == 0 {
                    spec_fold_props(vanilla, groups, ps.drop_first(), m)
                } else {
                    spec_fold_props(vanilla, groups.push(members), ps.drop_first(), m)
                }
            },
            None => spec_fold_props(vanilla.push(spec_to_prop(p, m)), groups, ps.drop_first(), m),
        }
    }
}

/// The parsed groups of an attribute, a parse failure counting as none.
pub open spec fn spec_attr_groups(attr: Seq<char>) -> Seq<GroupV> {
    match spec_parse_attr(attr) {
        None => Seq::empty(),
        Some(gs) => gs,
    }
}

/// Builds the discharge-level form of one parsed property.
fn to_prop(sp: &crate::safety::Property, reg: &Registry) -> (r: Property)
    ensures
        prop_model(r) == spec_to_prop(sp@, reg.map@),
{
    let mut args: Vec<String> = Vec::new();
    let mut i: usize = 0;
    while i < sp.args.len()
        invariant
            i <= sp.args@.len(),
            args@.len() == i,
            forall|k: int| 0 <= k < i ==> args@[k]@ == sp.args@[k]@,
        decreases sp.args@.len() - i,
    {
        args.push(sp.args[i].clone());
        i += 1;
    }
    let spec_tag = match crate::configuration::get_tag_opt(reg, sp.tag.name.as_str()) {
        Some(t) => Some(clone_tag(t)),
        None => None,
    };
    let r = Property { name: sp.tag.name.clone(), args, spec_tag };
    proof {
        assert(r.args.deep_view() =~= sp.args.deep_view());
    }
    r
}

impl Properties {
    /// An empty partition.
    pub fn new() -> (r: Properties)
        ensures
            r.vanilla@.len() == 0,
            r.group_of_any@.len() == 0,
    {
        Properties { vanilla: Vec::new(), group_of_any: Vec::new() }
    }

    /// Parses one attribute and folds its properties in, `any(...)`
    /// occurrences becoming alternative groups; text the grammar refuses
    /// contributes nothing.
    #[verifier::loop_isolation(false)]
    pub fn push_attr(&mut self, attr: &str, reg: &Registry)
        ensures
            ({
                let folded = spec_fold_props(
                    props_model(old(self).vanilla@),
                    prop_groups_model(old(self).group_of_any@),
                    spec_flat_props(spec_attr_groups(attr@)),
                    reg.map@,
                );
                &&& props_model(final(self).vanilla@) == folded.0
                &&& prop_groups_model(final(self).group_of_any@) == folded.1
            }),
    {
        let args = parse_attr_and_get_properties(attr);
        let sa = SafetyAttrArgs { args };
        proof {
            assert(sa@ =~= spec_attr_groups(attr@));
        }
        let prs = sa.property_reason();
        let ghost ps = spec_flat_props(spec_attr_groups(attr@));
        proof {
            assert(ps.len() == prs@.len());
            assert forall|k: int| 0 <= k < ps.len() implies prs@[k].0@ == ps[k] by {
                assert(crate::safety::pr_view(prs@[k]).0 == ps[k]);
            }
            assert(ps.subrange(0, ps.len() as int) =~= ps);
        }
        let mut i: usize = 0;
        while i < prs.len()
            invariant
                i <= ps.len(),
                ps.len() == prs@.len(),
                forall|k: int| 0 <= k < ps.len() ==> (#[trigger] prs@[k]).0@ == ps[k],
                spec_fold_props(
                    props_model(old(self).vanilla@),
                    prop_groups_model(old(self).group_of_any@),
                    ps,
                    reg.map@,
                ) == spec_fold_props(
                    props_model(self.vanilla@),
                    prop_groups_model(self.group_of_any@),
                    ps.subrange(i as int, ps.len() as int),
                    reg.map@,
                ),
            decreases ps.len() - i,
        {
            let ghost rem = ps.subrange(i as int, ps.len() as int);
            proof {
                assert(rem[0] == ps[i as int]);
                assert(rem.drop_first() =~= ps.subrange(i + 1, ps.len() as int));
            }
            let p = &prs[i].0;
            match p.args_in_any_tag() {
                Some(v_sp) => {
                    let ghost subv = v_sp@.map(|k: int, g: PropertiesAndReason| g@);
                    let flat_sa = SafetyAttrArgs { args: v_sp };
                    proof {
                        assert(flat_sa@ =~= subv);
                    }
                    let flat = flat_sa.property_reason();
                    let ghost target = spec_members_of(subv, reg.map@);
                    proof {
                        assert(target.len() == flat@.len());
                        assert forall|k: int| 0 <= k < target.len() implies (#[trigger] flat@[k]).0@
                            == spec_flat_props(subv)[k] by {
                            assert(crate::safety::pr_view(flat@[k]).0 == spec_flat_props(subv)[k]);
                        }
                    }
                    let mut members: Vec<Property> = Vec::new();
                    let mut j: usize = 0;
                    while j < flat.len()
                        invariant
                            j <= target.len(),
                            target.len() == flat@.len(),
                            members@.len() == j,
                            forall|k: int|
                                0 <= k < target.len() ==> (#[trigger] flat@[k]).0@
                                    == spec_flat_props(subv)[k],
                            forall|k: int|
                                0 <= k < j ==> prop_model(#[trigger] members@[k]) == target[k],
                        decreases target.len() - j,
                    {
                        members.push(to_prop(&flat[j].0, reg));
                        proof {
                            assert(target[j as int] == spec_to_prop(
                                spec_flat_props(subv)[j as int],
                                reg.map@,
                            ));
                        }
                        j += 1;
                    }
                    proof {
                        assert(props_model(members@) =~= target);
                        assert(spec_args_in_any(ps[i as int]) == Some(subv));
                    }
                    if members.len() > 0 {
                        let ghost gpre = prop_groups_model(self.group_of_any@);
                        self.group_of_any.push(members);
                        proof {
                            assert(prop_groups_model(self.group_of_any@) =~= gpre.push(target));
                        }
                    }
                },
                None => {
                    let ghost vpre = props_model(self.vanilla@);
                    self.vanilla.push(to_prop(p, reg));
                    proof {
                        assert(props_model(self.vanilla@) =~= vpre.push(
                            spec_to_prop(ps[i as int], reg.map@),
                        ));
                        assert(spec_args_in_any(ps[i as int]) is None);
                    }
                },
            }
            i += 1;
        }
        proof {
            assert(ps.subrange(ps.len() as int, ps.len() as int) =~= Seq::<PropV>::empty());
        }
    }
}

/// Per-definition parsed obligations, and the one discharge state machine
/// reused for each definition in turn.
pub struct ToolAttrs {
    /// Parsed obligations keyed by definition identity.
    pub map: Vec<(PrimaryKey, Properties)>,
    /// State of safety tags, showing whether they are discharged.
    pub tagged: TagState,
}

/// The partition an attribute list folds to, attribute by attribute.
pub open spec fn spec_props_of_attrs(
    v: Seq<PropModel>,
    g: Seq<Seq<PropModel>>,
    attrs: Seq<String>,
    m: Seq<crate::configuration::RegEntry>,
) -> (Seq<PropModel>, Seq<Seq<PropModel>>)
    decreases attrs.len(),
{
    if attrs.len() == 0 {
        (v, g)
    } else {
        let one = spec_fold_props(v, g, spec_flat_props(spec_attr_groups(attrs[0]@)), m);
        spec_props_of_attrs(one.0, one.1, attrs.drop_first(), m)
    }
}

/// The obligation cache a data list builds: one entry per definition with
/// at least one obligation attribute, in order, keyed by its identity.
pub open spec fn spec_data_map(
    data: Seq<Data>,
    m: Seq<crate::configuration::RegEntry>,
) -> Seq<(PrimaryKey, (Seq<PropModel>, Seq<Seq<PropModel>>))>
    decreases data.len(),
{
    if data.len() == 0 {
        Seq::empty()
    } else {
        let rest = spec_data_map(data.drop_first(), m);
        if data[0].func.tool_attrs@.len() > 0 {
            seq![
                (
                    data[0].hash,
                    spec_props_of_attrs(
                        Seq::empty(),
                        Seq::empty(),
                        data[0].func.tool_attrs@,
                        m,
                    ),
                ),
            ] + rest
        } else {
            rest
        }
    }
}

/// The model of the stored cache entries.
pub open spec fn map_entries(s: Seq<(PrimaryKey, Properties)>) -> Seq<
    (PrimaryKey, (Seq<PropModel>, Seq<Seq<PropModel>>)),
> {
    s.map(
        |k: int, e: (PrimaryKey, Properties)|
            (e.0, (props_model(e.1.vanilla@), prop_groups_model(e.1.group_of_any@))),
    )
}

impl ToolAttrs {
    /// Parses the attributes of every definition that has any, keyed by
    /// its identity, in input order; definitions without obligation
    /// attributes are skipped.
    #[verifier::loop_isolation(false)]
    pub fn new(data: &Vec<Data>, reg: &Registry) -> (r: ToolAttrs)
        ensures
            !r.tagged.undischarged,
            r.tagged.vanilla@.len() == 0,
            r.tagged.group_of_any@.len() == 0,
            map_entries(r.map@) == spec_data_map(data@, reg.map@),
    {
        let ghost m = reg.map@;
        let mut map: Vec<(PrimaryKey, Properties)> = Vec::new();
        let mut i: usize = 0;
        proof {
            assert(data@.subrange(0, data@.len() as int) =~= data@);
            assert(map_entries(map@) =~= Seq::<
                (PrimaryKey, (Seq<PropModel>, Seq<Seq<PropModel>>)),
            >::empty());
        }
        while i < data.len()
            invariant
                i <= data@.len(),
                spec_data_map(data@, m) == map_entries(map@) + spec_data_map(
                    data@.subrange(i as int, data@.len() as int),
                    m,
                ),
            decreases data@.len() - i,
        {
            let ghost rem = data@.subrange(i as int, data@.len() as int);
            let ghost pre = map_entries(map@);
            proof {
                assert(rem[0] == data@[i as int]);
                assert(rem.drop_first() =~= data@.subrange(i + 1, data@.len() as int));
            }
            let d = &data[i];
            if d.func.tool_attrs.len() > 0 {
                let ghost attrs = d.func.tool_attrs@;
                let mut props = Properties::new();
                let mut a: usize = 0;
                proof {
                    assert(props_model(props.vanilla@) =~= Seq::<PropModel>::empty());
                    assert(prop_groups_model(props.group_of_any@) =~= Seq::<
                        Seq<PropModel>,
                    >::empty());
                    assert(attrs.subrange(0, attrs.len() as int) =~= attrs);
                }
                while a < d.func.tool_attrs.len()
                    invariant
                        a <= attrs.len(),
                        attrs.len() == d.func.tool_attrs@.len(),
                        spec_props_of_attrs(Seq::empty(), Seq::empty(), attrs, m)
                            == spec_props_of_attrs(
                            props_model(props.vanilla@),
                            prop_groups_model(props.group_of_any@),
                            attrs.subrange(a as int, attrs.len() as int),
                            m,
                        ),
                    decreases attrs.len() - a,
                {
                    let ghost arem = attrs.subrange(a as int, attrs.len() as int);
                    proof {
                        assert(arem[0] == attrs[a as int]);
                        assert(arem.drop_first() =~= attrs.subrange(a + 1, attrs.len() as int));
                    }
                    props.push_attr(d.func.tool_attrs[a].as_str(), reg);
                    a += 1;
                }
                proof {
                    assert(attrs.subrange(attrs.len() as int, attrs.len() as int) =~= Seq::<
                        String,
                    >::empty());
                }
                map.push((d.hash, props));
                proof {
                    let e = map@[map@.len() - 1];
                    assert(map_entries(map@) =~= pre.push(
                        (e.0, (props_model(e.1.vanilla@), prop_groups_model(e.1.group_of_any@))),
                    ));
                    assert(pre + (seq![
                        (
                            data@[i as int].hash,
                            spec_props_of_attrs(
                                Seq::empty(),
                                Seq::empty(),
                                data@[i as int].func.tool_attrs@,
                                m,
                            ),
                        ),
                    ] + spec_data_map(rem.drop_first(), m)) =~= map_entries(map@)
                        + spec_data_map(rem.drop_first(), m));
                }
            }
            i += 1;
        }
        proof {
            assert(data@.subrange(data@.len() as int, data@.len() as int) =~= Seq::<Data>::empty());
            assert(map_entries(map@) + Seq::<
                (PrimaryKey, (Seq<PropModel>, Seq<Seq<PropModel>>)),
            >::empty() =~= map_entries(map@));
        }
        ToolAttrs { map, tagged: TagState::new() }
    }

    /// Refreshes the shared state machine with the obligations stored for
    /// this key; returns whether the key was found. After a successful
    /// refresh the machine is read through the `tagged` field.
    #[verifier::loop_isolation(false)]
    pub fn get_tags_via_key(&mut self, key: PrimaryKey) -> (r: bool)
        ensures
            final(self).map@ == old(self).map@,
            match spec_map_find(old(self).map@, key) {
                None => !r && *final(self) == *old(self),
                Some(mi) => {
                    &&& r
                    &&& list_model(final(self).tagged.vanilla@) == spec_refresh_list(
                        Seq::empty(),
                        props_model(old(self).map@[mi].1.vanilla@),
                    )
                    &&& groups_model(final(self).tagged.group_of_any@) == spec_fresh_groups(
                        prop_groups_model(old(self).map@[mi].1.group_of_any@),
                    )
                    &&& !final(self).tagged.undischarged
                },
            },
    {
        proof {
            lemma_map_find_props(self.map@, key);
        }
        let mut i: usize = 0;
        while i < self.map.len()
            invariant
                i <= self.map@.len(),
                forall|k: int| 0 <= k < i ==> (#[trigger] self.map@[k]).0 != key,
                *self == *old(self),
            decreases self.map@.len() - i,
        {
            let found = self.map[i].0.hash1 == key.hash1 && self.map[i].0.hash2 == key.hash2;
            if found {
                proof {
                    assert(self.map@[i as int].0 == key);
                    assert(spec_map_find(self.map@, key) == Some(i as int));
                }
                let (k2, props) = self.map.remove(i);
                self.tagged.refresh(&props);
                self.map.insert(i, (k2, props));
                proof {
                    assert(self.map@ =~= old(self).map@);
                }
                return true;
            }
            i += 1;
        }
        false
    }
}

/// The first entry with this key./// The first entry with this key.
pub open spec fn spec_map_find(m: Seq<(PrimaryKey, Properties)>, key: PrimaryKey) -> Option<int>
    decreases m.len(),
{
    if m.len() == 0 {
        None
    } else if m[0].0 == key {
        Some(0)
    } else {
        match spec_map_find(m.drop_first(), key) {
            Some(i) => Some(i + 1),
            None => None,
        }
    }
}

proof fn lemma_map_find_props(m: Seq<(PrimaryKey, Properties)>, key: PrimaryKey)
    ensures
        match spec_map_find(m, key) {
            Some(i) => 0 <= i < m.len() && m[i].0 == key && forall|k: int|
                0 <= k < i ==> m[k].0 != key,
            None => forall|k: int| 0 <= k < m.len() ==> m[k].0 != key,
        },
    decreases m.len(),
{
    if m.len() > 0 && m[0].0 != key {
        lemma_map_find_props(m.drop_first(), key);
        assert forall|k: int| 1 <= k < m.len() implies m.drop_first()[k - 1] == m[k] by {}
    }
}

proof fn lemma_find_name_flag_update(v: Seq<(PropModel, bool)>, i: int, b: bool, name: Seq<char>)
    requires
        0 <= i < v.len(),
    ensures
        spec_find_name(v.update(i, (v[i].0, b)), name) == spec_find_name(v, name),
    decreases v.len(),
{
    let v2 = v.update(i, (v[i].0, b));
    if v.len() > 0 {
        assert(v2[0].0.name == v[0].0.name);
        if v[0].0.name != name {
            if i == 0 {
                assert(v2.drop_first() =~= v.drop_first());
            } else {
                assert(v2.drop_first() =~= v.drop_first().update(i - 1, (v.drop_first()[i - 1].0, b)));
                lemma_find_name_flag_update(v.drop_first(), i - 1, b, name);
            }
        }
    }
}

/// Law: discharging the same vanilla obligation twice in sequence fails on
/// the second call: a successful discharge flips exactly the entry the
/// name resolves to, the name still resolves to that entry afterwards, and
/// its flag is then set, which `discharge` reports as an error.
pub proof fn lemma_vanilla_discharge_idempotent_checked(
    vm: Seq<(PropModel, bool)>,
    name: Seq<char>,
)
    requires
        spec_find_name(vm, name) is Some,
        !vm[spec_find_name(vm, name).unwrap()].1,
    ensures
        ({
            let i = spec_find_name(vm, name).unwrap();
            let vm2 = vm.update(i, (vm[i].0, true));
            spec_find_name(vm2, name) == Some(i) && vm2[i].1
        }),
{
    let i = spec_find_name(vm, name).unwrap();
    lemma_find_name_props(vm, name);
    lemma_find_name_flag_update(vm, i, true, name);
}

/// Law: discharging two distinct members of one alternative group both
/// succeed, and the group is satisfied afterwards (indeed already after
/// the first).
pub proof fn lemma_any_two_distinct_discharges(
    g: Seq<(PropModel, bool)>,
    x: Seq<char>,
    y: Seq<char>,
)
    requires
        x != y,
        spec_find_name(g, x) is Some,
        spec_find_name(g, y) is Some,
        forall|i: int| 0 <= i < g.len() ==> !(#[trigger] g[i]).1,
    ensures
        ({
            let gs = seq![g];
            spec_discharge_groups(gs, x) matches Ok(gs2) && {
                &&& spec_group_satisfied(gs2[0])
                &&& spec_discharge_groups(gs2, y) matches Ok(gs3) && spec_group_satisfied(gs3[0])
            }
        }),
{
    let gs = seq![g];
    lemma_find_name_props(g, x);
    lemma_find_name_props(g, y);
    let ix = spec_find_name(g, x).unwrap();
    let g2 = g.update(ix, (g[ix].0, true));
    assert(gs[0] == g);
    assert(gs.drop_first() =~= Seq::<Seq<(PropModel, bool)>>::empty());
    assert(spec_discharge_groups(Seq::<Seq<(PropModel, bool)>>::empty(), x) == Ok::<
        _,
        Seq<Seq<(PropModel, bool)>>,
    >(Seq::<Seq<(PropModel, bool)>>::empty()));
    assert(spec_discharge_groups(gs, x) == Ok::<_, Seq<Seq<(PropModel, bool)>>>(
        seq![g2] + Seq::<Seq<(PropModel, bool)>>::empty(),
    ));
    let gs2 = seq![g2] + Seq::<Seq<(PropModel, bool)>>::empty();
    assert(gs2[0] == g2);
    assert(g2[ix].1);
    assert(spec_group_satisfied(g2));
    lemma_find_name_flag_update(g, ix, true, y);
    let iy = spec_find_name(g2, y).unwrap();
    lemma_find_name_props(g2, y);
    assert(g2[iy].0.name == y);
    assert(iy != ix);
    assert(g2[iy].1 == g[iy].1);
    assert(!g2[iy].1);
    let g3 = g2.update(iy, (g2[iy].0, true));
    assert(gs2.drop_first() =~= Seq::<Seq<(PropModel, bool)>>::empty());
    assert(spec_discharge_groups(Seq::<Seq<(PropModel, bool)>>::empty(), y) == Ok::<
        _,
        Seq<Seq<(PropModel, bool)>>,
    >(Seq::<Seq<(PropModel, bool)>>::empty()));
    assert(spec_discharge_groups(gs2, y) == Ok::<_, Seq<Seq<(PropModel, bool)>>>(
        seq![g3] + Seq::<Seq<(PropModel, bool)>>::empty(),
    ));
    assert((seq![g3] + Seq::<Seq<(PropModel, bool)>>::empty())[0] == g3);
    assert(g3[ix].1);
    assert(spec_group_satisfied(g3));
}

/// Law: for an alternative group with no member discharged yet,
/// discharging one member leaves nothing of that group to report, while
/// discharging none reports the whole group, naming every member.
pub proof fn lemma_any_group_reporting(g: Seq<(PropModel, bool)>, y: Seq<char>)
    requires
        g.len() > 0,
        spec_find_name(g, y) is Some,
        forall|i: int| 0 <= i < g.len() ==> !(#[trigger] g[i]).1,
    ensures
        ({
            let gs = seq![g];
            spec_discharge_groups(gs, y) matches Ok(gs2) && {
                &&& spec_failing_members(gs2) == Seq::<Seq<PropModel>>::empty()
                &&& spec_group_lines(gs2) == Seq::<Seq<char>>::empty()
            }
        }),
        spec_failing_members(seq![g]) == seq![spec_members(g)],
{
    let gs = seq![g];
    lemma_find_name_props(g, y);
    let iy = spec_find_name(g, y).unwrap();
    let g2 = g.update(iy, (g[iy].0, true));
    assert(gs[0] == g);
    assert(gs.drop_first() =~= Seq::<Seq<(PropModel, bool)>>::empty());
    assert(spec_discharge_groups(Seq::<Seq<(PropModel, bool)>>::empty(), y) == Ok::<
        _,
        Seq<Seq<(PropModel, bool)>>,
    >(Seq::<Seq<(PropModel, bool)>>::empty()));
    assert(spec_discharge_groups(gs, y) == Ok::<_, Seq<Seq<(PropModel, bool)>>>(
        seq![g2] + Seq::<Seq<(PropModel, bool)>>::empty(),
    ));
    let gs2 = seq![g2] + Seq::<Seq<(PropModel, bool)>>::empty();
    assert(gs2[0] == g2);
    assert(g2[iy].1);
    assert(spec_group_satisfied(g2));
    assert(gs2.drop_first() =~= Seq::<Seq<(PropModel, bool)>>::empty());
    assert(spec_failing_members(Seq::<Seq<(PropModel, bool)>>::empty()) == Seq::<
        Seq<PropModel>,
    >::empty());
    assert(spec_group_lines(Seq::<Seq<(PropModel, bool)>>::empty()) == Seq::<Seq<char>>::empty());
    assert(spec_failing_members(gs2) =~= Seq::<Seq<PropModel>>::empty());
    assert(spec_group_lines(gs2) =~= Seq::<Seq<char>>::empty());
    assert(!spec_group_satisfied(g));
    assert(seq![g].drop_first() =~= Seq::<Seq<(PropModel, bool)>>::empty());
    assert(seq![g][0] == g);
    assert(spec_failing_members(seq![g]) =~= seq![spec_members(g)]);
}

/// Law: for an obligation set of exactly the two vanilla properties `pa`
/// and `pb`, a call site that discharges both leaves nothing to report,
/// and one that discharges only `pa` leaves a report naming exactly `pb`.
pub proof fn lemma_round_trip_two_vanilla(pa: PropModel, pb: PropModel)
    requires
        pa.name != pb.name,
    ensures
        ({
            let vm = spec_refresh_list(Seq::empty(), seq![pa, pb]);
            &&& vm == seq![(pa, false), (pb, false)]
            &&& spec_find_name(vm, pa.name) == Some(0int)
            &&& spec_find_name(vm.update(0, (pa, true)), pb.name) == Some(1int)
            &&& spec_undisch_vanilla(vm.update(0, (pa, true)).update(1, (pb, true)))
                == Seq::<PropModel>::empty()
            &&& spec_undisch_vanilla(vm.update(0, (pa, true))) == seq![pb]
        }),
{
    let ps = seq![pa, pb];
    let e0 = Seq::<(PropModel, bool)>::empty();
    assert(spec_find_name(e0, pa.name) is None);
    let acc1 = e0.push((pa, false));
    assert(ps[0] == pa);
    assert(ps.drop_first() =~= seq![pb]);
    assert(acc1[0].0.name == pa.name);
    assert(acc1.drop_first() =~= e0);
    assert(spec_find_name(e0, pb.name) is None);
    assert(spec_find_name(acc1, pb.name) is None);
    let acc2 = acc1.push((pb, false));
    assert(seq![pb][0] == pb);
    assert(seq![pb].drop_first() =~= Seq::<PropModel>::empty());
    assert(spec_refresh_list(acc2, Seq::<PropModel>::empty()) == acc2);
    assert(spec_refresh_list(acc1, seq![pb]) == acc2);
    assert(spec_refresh_list(e0, ps) == acc2);
    let vm = spec_refresh_list(Seq::empty(), ps);
    assert(vm =~= seq![(pa, false), (pb, false)]);
    assert(spec_find_name(vm, pa.name) == Some(0int));
    let vm1 = vm.update(0, (pa, true));
    lemma_find_name_flag_update(vm, 0, true, pb.name);
    assert(vm.drop_first() =~= seq![(pb, false)]);
    assert(seq![(pb, false)][0].0.name == pb.name);
    assert(spec_find_name(seq![(pb, false)], pb.name) == Some(0int));
    assert(spec_find_name(vm, pb.name) == Some(1int));
    assert(spec_find_name(vm1, pb.name) == Some(1int));
    let vm2 = vm1.update(1, (pb, true));
    assert(vm2 =~= seq![(pa, true), (pb, true)]);
    assert(vm2.drop_first() =~= seq![(pb, true)]);
    assert(seq![(pb, true)].drop_first() =~= Seq::<(PropModel, bool)>::empty());
    assert(spec_undisch_vanilla(Seq::<(PropModel, bool)>::empty()) == Seq::<PropModel>::empty());
    assert(spec_undisch_vanilla(seq![(pb, true)]) == Seq::<PropModel>::empty());
    assert(spec_undisch_vanilla(vm2) == Seq::<PropModel>::empty());
    assert(vm1 =~= seq![(pa, true), (pb, false)]);
    assert(vm1.drop_first() =~= seq![(pb, false)]);
    assert(seq![(pb, false)].drop_first() =~= Seq::<(PropModel, bool)>::empty());
    assert(spec_undisch_vanilla(seq![(pb, false)]) =~= seq![pb]);
    assert(spec_undisch_vanilla(vm1) =~= seq![pb]);
}

} // verus!
