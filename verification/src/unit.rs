//! One build unit's step: discover the channel entries among the
//! environment pairs, decode each upstream record, aggregate all visible
//! header directories into one deterministic ordered set, and decide what
//! the unit republishes to its own consumers.

use vstd::prelude::*;

use crate::channel::{b64_decoded, b64_text, channel_value_ok, decode, parse_record, record_bytes,
    Dependency};
use crate::config::ZanbilConf;
use crate::order::{
    copy_bytes, copy_dirs, insert_sorted, lemma_strictly_sorted_unique, strictly_sorted, views,
};

verus! {

/// Leading bytes of a channel key: `DEP_`.
pub open spec fn dep_prefix() -> Seq<u8> {
    seq![68u8, 69u8, 80u8, 95u8]
}

/// Trailing bytes of a channel key: `_ZANBIL_HDRS`.
pub open spec fn dep_suffix() -> Seq<u8> {
    seq![95u8, 90u8, 65u8, 78u8, 66u8, 73u8, 76u8, 95u8, 72u8, 68u8, 82u8, 83u8]
}

/// Whether an environment key carries an upstream unit's published record.
pub open spec fn is_dep_key(k: Seq<u8>) -> bool {
    k.len() >= 16 && k.take(4) == dep_prefix() && k.skip(k.len() - 12) == dep_suffix()
}

/// The upstream unit's name inside a channel key.
pub open spec fn dep_name_of(k: Seq<u8>) -> Seq<u8> {
    k.subrange(4, k.len() - 12)
}

/// The views of a sequence of byte-vector pairs.
pub open spec fn pair_views(s: Seq<(Vec<u8>, Vec<u8>)>) -> Seq<(Seq<u8>, Seq<u8>)> {
    s.map_values(|p: (Vec<u8>, Vec<u8>)| (p.0@, p.1@))
}

/// The (name, value) pairs of the channel entries among the environment
/// pairs, in their discovery order.
pub open spec fn dep_entries(vars: Seq<(Seq<u8>, Seq<u8>)>) -> Seq<(Seq<u8>, Seq<u8>)>
    decreases vars.len(),
{
    if vars.len() == 0 {
        Seq::empty()
    } else {
        let rest = dep_entries(vars.skip(1));
        if is_dep_key(vars[0].0) {
            seq![(dep_name_of(vars[0].0), vars[0].1)] + rest
        } else {
            rest
        }
    }
}

proof fn lemma_dep_entries_snoc(vars: Seq<(Seq<u8>, Seq<u8>)>)
    requires
        vars.len() >= 1,
    ensures
        dep_entries(vars) == if is_dep_key(vars.last().0) {
            dep_entries(vars.drop_last()) + seq![(dep_name_of(vars.last().0), vars.last().1)]
        } else {
            dep_entries(vars.drop_last())
        },
    decreases vars.len(),
{
    if vars.len() == 1 {
        assert(vars.skip(1) =~= Seq::<(Seq<u8>, Seq<u8>)>::empty());
        assert(vars.drop_last() =~= Seq::<(Seq<u8>, Seq<u8>)>::empty());
        if is_dep_key(vars[0].0) {
            assert(seq![(dep_name_of(vars[0].0), vars[0].1)] + dep_entries(vars.skip(1)) =~= dep_entries(
                vars.drop_last(),
            ) + seq![(dep_name_of(vars.last().0), vars.last().1)]);
        }
    } else {
        let t = vars.skip(1);
        lemma_dep_entries_snoc(t);
        assert(t.last() == vars.last());
        assert(t.drop_last() =~= vars.drop_last().skip(1));
        assert(vars.drop_last().len() >= 1);
        assert(vars.drop_last()[0] == vars[0]);
        if is_dep_key(vars[0].0) {
            if is_dep_key(vars.last().0) {
                assert(seq![(dep_name_of(vars[0].0), vars[0].1)] + (dep_entries(t.drop_last())
                    + seq![(dep_name_of(vars.last().0), vars.last().1)]) =~= (seq![
                    (dep_name_of(vars[0].0), vars[0].1),
                ] + dep_entries(t.drop_last())) + seq![(dep_name_of(vars.last().0), vars.last().1)]);
            }
        }
    }
}

/// Name an environment key's upstream unit, if the key belongs to the
/// channel's naming convention.
fn dep_key_name(k: &Vec<u8>) -> (r: Option<Vec<u8>>)
    ensures
        match r {
            Some(n) => is_dep_key(k@) && n@ == dep_name_of(k@),
            None => !is_dep_key(k@),
        },
{
    if k.len() < 16 {
        return None;
    }
    proof {
        assert(forall|j: int| 0 <= j < 4 ==> k@.take(4)[j] == k@[j]);
    }
    if !(k[0] == 68 && k[1] == 69 && k[2] == 80 && k[3] == 95) {
        proof {
            if k@.take(4) == dep_prefix() {
                assert(k@[0] == 68 && k@[1] == 69 && k@[2] == 80 && k@[3] == 95);
            }
        }
        return None;
    }
    let sfx = k.len() - 12;
    let ghost tail = k@.skip(k@.len() - 12);
    proof {
        assert(forall|j: int| 0 <= j < 12 ==> tail[j] == k@[sfx + j]);
    }
    if !(k[sfx] == 95 && k[sfx + 1] == 90 && k[sfx + 2] == 65 && k[sfx + 3] == 78 && k[sfx + 4]
        == 66 && k[sfx + 5] == 73 && k[sfx + 6] == 76 && k[sfx + 7] == 95 && k[sfx + 8] == 72 && k[sfx
        + 9] == 68 && k[sfx + 10] == 82 && k[sfx + 11] == 83) {
        proof {
            if tail == dep_suffix() {
                assert(k@[sfx as int] == 95 && k@[sfx + 1] == 90 && k@[sfx + 2] == 65 && k@[sfx + 3]
                    == 78 && k@[sfx + 4] == 66 && k@[sfx + 5] == 73 && k@[sfx + 6] == 76 && k@[sfx
                    + 7] == 95 && k@[sfx + 8] == 72 && k@[sfx + 9] == 68 && k@[sfx + 10] == 82 && k@[sfx
                    + 11] == 83);
            }
        }
        return None;
    }
    proof {
        assert(k@.take(4) =~= dep_prefix());
        assert(tail =~= dep_suffix());
    }
    let mut name: Vec<u8> = Vec::new();
    let mut i: usize = 4;
    while i < sfx
        invariant
            4 <= i <= sfx,
            sfx == k@.len() - 12,
            k@.len() >= 16,
            name@ == k@.subrange(4, i as int),
        decreases sfx - i,
    {
        name.push(k[i]);
        proof {
            assert(k@.subrange(4, i as int + 1) =~= k@.subrange(4, i as int).push(k@[i as int]));
        }
        i = i + 1;
    }
    Some(name)
}

/// Collect the channel entries among the environment pairs: each one's
/// upstream name and undecoded value, in discovery order.
pub fn collect_dep_entries(vars: &Vec<(Vec<u8>, Vec<u8>)>) -> (r: Vec<(Vec<u8>, Vec<u8>)>)
    ensures
        pair_views(r@) == dep_entries(pair_views(vars@)),
{
    let mut out: Vec<(Vec<u8>, Vec<u8>)> = Vec::new();
    proof {
        assert(pair_views(out@) =~= dep_entries(pair_views(vars@).take(0)));
    }
    let mut i: usize = 0;
    while i < vars.len()
        invariant
            i <= vars.len(),
            pair_views(out@) == dep_entries(pair_views(vars@).take(i as int)),
        decreases vars.len() - i,
    {
        let ghost pv = pair_views(vars@);
        proof {
            lemma_dep_entries_snoc(pv.take(i as int + 1));
            assert(pv.take(i as int + 1).drop_last() =~= pv.take(i as int));
            assert(pv.take(i as int + 1).last() == pv[i as int]);
            assert(pv[i as int] == (vars@[i as int].0@, vars@[i as int].1@));
        }
        let p = &vars[i];
        match dep_key_name(&p.0) {
            Some(n) => {
                let val = copy_bytes(&p.1);
                out.push((n, val));
                proof {
                    assert(pair_views(out@) =~= dep_entries(pv.take(i as int + 1)));
                }
            },
            None => {
                proof {
                    assert(pair_views(out@) =~= dep_entries(pv.take(i as int + 1)));
                }
            },
        }
        i = i + 1;
    }
    proof {
        assert(pair_views(vars@).take(vars@.len() as int) =~= pair_views(vars@));
    }
    out
}

/// Merge the unit's own header directory and every upstream record's
/// directories into one strictly sorted, duplicate-free sequence: the
/// aggregated set is a function of the membership alone, never of the
/// discovery order.
pub fn aggregate_dirs(own: &Vec<u8>, deps: &Vec<Dependency>) -> (r: Vec<Vec<u8>>)
    ensures
        strictly_sorted(views(r@)),
        forall|p: Seq<u8>|
            views(r@).contains(p) <==> (p == own@ || exists|i: int|
                0 <= i < deps@.len() && #[trigger] deps@[i]@.contains(p)),
{
    let mut out: Vec<Vec<u8>> = Vec::new();
    proof {
        assert(views(out@) =~= Seq::<Seq<u8>>::empty());
    }
    insert_sorted(&mut out, copy_bytes(own));
    let mut i: usize = 0;
    while i < deps.len()
        invariant
            i <= deps.len(),
            strictly_sorted(views(out@)),
            forall|p: Seq<u8>|
                #[trigger] views(out@).contains(p) <==> (p == own@ || exists|k: int|
                    0 <= k < i && #[trigger] deps@[k]@.contains(p)),
        decreases deps.len() - i,
    {
        let d = &deps[i];
        let ghost dv = d@;
        let mut j: usize = 0;
        while j < d.dirs.len()
            invariant
                j <= d.dirs.len(),
                i < deps.len(),
                d == &deps[i as int],
                dv == deps@[i as int]@,
                strictly_sorted(views(out@)),
                forall|p: Seq<u8>|
                    #[trigger] views(out@).contains(p) <==> (p == own@ || (exists|k: int|
                        0 <= k < i && #[trigger] deps@[k]@.contains(p)) || (exists|m: int|
                        0 <= m < j && #[trigger] dv[m] == p)),
            decreases d.dirs.len() - j,
        {
            proof {
                assert(dv[j as int] == d.dirs@[j as int]@);
            }
            insert_sorted(&mut out, copy_bytes(&d.dirs[j]));
            j = j + 1;
        }
        proof {
            assert forall|p: Seq<u8>| #[trigger]
                views(out@).contains(p) <==> (p == own@ || exists|k: int|
                    0 <= k < i + 1 && #[trigger] deps@[k]@.contains(p)) by {
                if views(out@).contains(p) {
                    if p != own@ && !(exists|k: int| 0 <= k < i && deps@[k]@.contains(p)) {
                        let m = choose|m: int| 0 <= m < d.dirs@.len() && dv[m] == p;
                        assert(deps@[i as int]@[m] == p);
                        assert(deps@[i as int]@.contains(p));
                    }
                }
                if p == own@ || exists|k: int| 0 <= k < i + 1 && deps@[k]@.contains(p) {
                    if p != own@ && !(exists|k: int| 0 <= k < i && deps@[k]@.contains(p)) {
                        let k = choose|k: int| 0 <= k < i + 1 && deps@[k]@.contains(p);
                        assert(k == i);
                        let m = choose|m: int| 0 <= m < deps@[k]@.len() && deps@[k]@[m] == p;
                        assert(dv[m] == p);
                    }
                }
            }
        }
        i = i + 1;
    }
    out
}

/// Whether some upstream record among `deps` publishes the directory `p`.
pub open spec fn deps_contain(deps: Seq<Dependency>, p: Seq<u8>) -> bool {
    exists|i: int| 0 <= i < deps.len() && #[trigger] deps[i]@.contains(p)
}

/// Aggregation is a function of the membership alone: two aggregates that
/// meet `aggregate_dirs`'s contract over upstream records with the same
/// member directories are identical, whatever order the records arrived
/// in and however the directories were spread over them. Aggregating the
/// same records twice is the special case of equal memberships.
pub proof fn lemma_aggregate_deterministic(
    own: Seq<u8>,
    deps1: Seq<Dependency>,
    deps2: Seq<Dependency>,
    r1: Seq<Seq<u8>>,
    r2: Seq<Seq<u8>>,
)
    requires
        strictly_sorted(r1),
        strictly_sorted(r2),
        forall|p: Seq<u8>| #[trigger] r1.contains(p) <==> (p == own || deps_contain(deps1, p)),
        forall|p: Seq<u8>| #[trigger] r2.contains(p) <==> (p == own || deps_contain(deps2, p)),
        forall|p: Seq<u8>| #[trigger] deps_contain(deps1, p) <==> #[trigger] deps_contain(
            deps2,
            p,
        ),
    ensures
        r1 == r2,
{
    assert forall|p: Seq<u8>| r1.contains(p) <==> r2.contains(p) by {
        assert(r1.contains(p) <==> (p == own || deps_contain(deps1, p)));
        assert(r2.contains(p) <==> (p == own || deps_contain(deps2, p)));
    }
    lemma_strictly_sorted_unique(r1, r2);
}

/// Why a build unit could not be constructed.
#[derive(Debug, Clone, Copy, PartialEq, Eq)]
pub enum InitError {
    /// The manifest does not give the unit a link name; the step aborts
    /// before anything else happens.
    MissingLinkName,
    /// An upstream channel value did not decode.
    BadDependency,
}

/// One build unit, freshly constructed at the start of its build step.
#[derive(Debug)]
pub struct ZanbilCrate {
    /// The unit's unique identifier: its link name.
    pub name: Vec<u8>,
    /// The unit's configuration.
    pub config: ZanbilConf,
    /// The unit's own fresh header directory.
    pub header_dir: Vec<u8>,
    /// Sorted, duplicate-free union of every visible header directory.
    pub aggregated_header_dirs: Vec<Vec<u8>>,
    /// The decoded upstream records, in discovery order.
    pub dependencies: Vec<Dependency>,
    /// The upstream unit names, in the same order.
    pub dep_names: Vec<Vec<u8>>,
}

impl ZanbilCrate {
    /// The aggregate is sorted and duplicate-free, holds the unit's own
    /// header directory, and holds exactly the directories the unit can see.
    pub open spec fn wf(self) -> bool {
        &&& strictly_sorted(views(self.aggregated_header_dirs@))
        &&& views(self.aggregated_header_dirs@).contains(self.header_dir@)
        &&& forall|p: Seq<u8>|
            #[trigger] views(self.aggregated_header_dirs@).contains(p) <==> (p == self.header_dir@
                || exists|i: int|
                0 <= i < self.dependencies@.len() && #[trigger] self.dependencies@[i]@.contains(p))
        &&& self.dep_names@.len() == self.dependencies@.len()
    }

    /// Construct the unit for one build step: require the link name,
    /// decode every discovered channel entry, and aggregate. The missing
    /// link name is reported before anything else is looked at.
    pub fn init(
        name: Option<Vec<u8>>,
        header_dir: Vec<u8>,
        config: ZanbilConf,
        vars: &Vec<(Vec<u8>, Vec<u8>)>,
    ) -> (r: Result<ZanbilCrate, InitError>)
        ensures
            name is None <==> r == Err::<ZanbilCrate, InitError>(InitError::MissingLinkName),
            (name is Some && (forall|e: (Seq<u8>, Seq<u8>)|
                dep_entries(pair_views(vars@)).contains(e) ==> exists|dirs: Seq<Seq<u8>>|
                    e.1 == b64_text(#[trigger] record_bytes(dirs)))) ==> r is Ok,
            name is Some ==> (r is Ok <==> (forall|j: int|
                0 <= j < dep_entries(pair_views(vars@)).len() ==> channel_value_ok(
                    #[trigger] dep_entries(pair_views(vars@))[j].1,
                ))),
            name is Some && r is Err ==> r == Err::<ZanbilCrate, InitError>(
                InitError::BadDependency,
            ) && (exists|e: (Seq<u8>, Seq<u8>)|
                #[trigger] dep_entries(pair_views(vars@)).contains(e) && (forall|
                    dirs: Seq<Seq<u8>>,
                |
                    e.1 != b64_text(#[trigger] record_bytes(dirs)))),
            r is Ok ==> ({
                let u = r.unwrap();
                &&& u.name@ == name.unwrap()@
                &&& u.config == config
                &&& u.header_dir@ == header_dir@
                &&& u.wf()
                &&& u.dep_names@.len() == dep_entries(pair_views(vars@)).len()
                &&& u.dependencies@.len() == dep_entries(pair_views(vars@)).len()
                &&& forall|i: int|
                    0 <= i < u.dep_names@.len() ==> u.dep_names@[i]@ == dep_entries(
                        pair_views(vars@),
                    )[i].0
                &&& forall|i: int, dirs: Seq<Seq<u8>>|
                    #![trigger u.dependencies@[i], record_bytes(dirs)]
                    0 <= i < u.dependencies@.len() && dep_entries(pair_views(vars@))[i].1
                        == b64_text(record_bytes(dirs)) ==> u.dependencies@[i]@ == dirs
                &&& forall|i: int|
                    0 <= i < u.dependencies@.len() ==> Some(#[trigger] u.dependencies@[i]@)
                        == parse_record(b64_decoded(dep_entries(pair_views(vars@))[i].1).unwrap())
            }),
    {
        let link_name = match name {
            Some(n) => n,
            None => {
                return Err(InitError::MissingLinkName);
            },
        };
        let entries = collect_dep_entries(vars);
        let ghost ev = dep_entries(pair_views(vars@));
        let mut dependencies: Vec<Dependency> = Vec::new();
        let mut dep_names: Vec<Vec<u8>> = Vec::new();
        let mut i: usize = 0;
        while i < entries.len()
            invariant
                name is Some,
                ev == dep_entries(pair_views(vars@)),
                i <= entries.len(),
                pair_views(entries@) == ev,
                dependencies@.len() == i,
                dep_names@.len() == i,
                forall|k: int| 0 <= k < i ==> dep_names@[k]@ == ev[k].0,
                forall|k: int, dirs: Seq<Seq<u8>>|
                    #![trigger dependencies@[k], record_bytes(dirs)]
                    0 <= k < i && ev[k].1 == b64_text(record_bytes(dirs)) ==> dependencies@[k]@
                        == dirs,
                forall|k: int| 0 <= k < i ==> channel_value_ok(#[trigger] ev[k].1),
                forall|k: int|
                    0 <= k < i ==> Some(#[trigger] dependencies@[k]@) == parse_record(
                        b64_decoded(ev[k].1).unwrap(),
                    ),
            decreases entries.len() - i,
        {
            let e = &entries[i];
            proof {
                assert(ev[i as int] == (entries@[i as int].0@, entries@[i as int].1@));
            }
            match decode(&e.1) {
                Ok(d) => {
                    dependencies.push(d);
                    dep_names.push(copy_bytes(&e.0));
                },
                Err(_) => {
                    proof {
                        assert(name is Some);
                        assert(ev.contains(ev[i as int]));
                        assert(ev[i as int].1 == entries@[i as int].1@);
                        assert(forall|dirs: Seq<Seq<u8>>|
                            entries@[i as int].1@ != b64_text(#[trigger] record_bytes(dirs)));
                    }
                    return Err(InitError::BadDependency);
                },
            }
            i = i + 1;
        }
        let aggregated_header_dirs = aggregate_dirs(&header_dir, &dependencies);
        Ok(
            ZanbilCrate {
                name: link_name,
                config,
                header_dir,
                aggregated_header_dirs,
                dependencies,
                dep_names,
            },
        )
    }

    /// The record this unit republishes to its own downstream consumers:
    /// the full aggregate when the export policy is public, its own header
    /// directory alone otherwise. What the current compile sees is always
    /// the full aggregate; only the advertisement differs.
    pub fn republish(&self) -> (d: Dependency)
        ensures
            self.config.make_dependencies_public ==> d@ == views(self.aggregated_header_dirs@),
            !self.config.make_dependencies_public ==> d@ == seq![self.header_dir@],
    {
        if self.config.make_dependencies_public {
            Dependency { dirs: copy_dirs(&self.aggregated_header_dirs) }
        } else {
            let mut dirs: Vec<Vec<u8>> = Vec::new();
            dirs.push(copy_bytes(&self.header_dir));
            proof {
                assert(views(dirs@) =~= seq![self.header_dir@]);
            }
            Dependency { dirs }
        }
    }
}

/// The lower-case form of an upper-case letter byte; other bytes stand.
pub open spec fn lower_byte(b: u8) -> u8 {
    if 65 <= b <= 90 {
        (b + 32) as u8
    } else {
        b
    }
}

/// Bytewise lower-casing of a name.
pub open spec fn lower(s: Seq<u8>) -> Seq<u8> {
    s.map_values(|b: u8| lower_byte(b))
}

/// Lower-case one name, for the generated linkage declarations.
pub fn lowercase_name(s: &Vec<u8>) -> (r: Vec<u8>)
    ensures
        r@ == lower(s@),
{
    let mut r: Vec<u8> = Vec::new();
    let mut i: usize = 0;
    while i < s.len()
        invariant
            i <= s.len(),
            r@.len() == i,
            forall|j: int| 0 <= j < i ==> r@[j] == lower_byte(s@[j]),
        decreases s.len() - i,
    {
        let b = s[i];
        if 65 <= b && b <= 90 {
            r.push(b + 32);
        } else {
            r.push(b);
        }
        i = i + 1;
    }
    proof {
        assert(r@ =~= lower(s@));
    }
    r
}

} // verus!
