//! Field-presence metadata of a decode.
//!
//! Tells three states apart for any dotted field path: set (assigned a
//! non-null value), null (assigned `null` explicitly) and absent (not
//! mentioned). Also carries the document-root directives a decode saw: the
//! generic `@<name>` directives, the `@dataset` directives and the `@proto`
//! directives, each in source order.
use vstd::prelude::*;

use crate::pxf::ast::{DatasetDirective, Directive, ProtoDirective};
use crate::text::{owned, str_is};

verus! {

/// The paths a list of strings holds.
pub open spec fn path_set(v: Seq<String>) -> Set<Seq<char>> {
    Set::new(|p: Seq<char>| exists|i: int| 0 <= i < v.len() && (#[trigger] v[i])@ == p)
}

/// No path twice.
pub open spec fn distinct_paths(v: Seq<String>) -> bool {
    forall|i: int, j: int| 0 <= i < j < v.len() ==> (#[trigger] v[i])@ != (#[trigger] v[j])@
}

/// Whether `v` holds `p`.
fn holds(v: &Vec<String>, p: &str) -> (r: bool)
    ensures
        r == path_set(v@).contains(p@),
{
    let target = owned(p);
    let mut k: usize = 0;
    while k < v.len()
        invariant
            k <= v@.len(),
            target@ == p@,
            forall|i: int| 0 <= i < k ==> (#[trigger] v@[i])@ != p@,
        decreases v@.len() - k,
    {
        if v[k].eq(&target) {
            assert(v@[k as int]@ == p@);
            return true;
        }
        k = k + 1;
    }
    false
}

/// Adds `p` to `v` unless it is there.
fn insert_path(v: &mut Vec<String>, p: &str)
    requires
        distinct_paths(old(v)@),
    ensures
        distinct_paths(final(v)@),
        path_set(final(v)@) == path_set(old(v)@).insert(p@),
{
    if holds(v, p) {
        assert(path_set(v@) == path_set(v@).insert(p@));
        return ;
    }
    let ghost before = v@;
    v.push(owned(p));
    proof {
        assert forall|q: Seq<char>| path_set(v@).contains(q) == path_set(before).insert(p@).contains(
            q,
        ) by {
            if path_set(v@).contains(q) {
                let i = choose|i: int| 0 <= i < v@.len() && (#[trigger] v@[i])@ == q;
                if i < before.len() {
                    assert(before[i] == v@[i]);
                }
            }
            if path_set(before).contains(q) {
                let i = choose|i: int| 0 <= i < before.len() && (#[trigger] before[i])@ == q;
                assert(v@[i] == before[i]);
            }
            if q == p@ {
                assert(v@[before.len() as int]@ == p@);
            }
        }
        assert(path_set(v@) =~= path_set(before).insert(p@));
        assert forall|i: int, j: int| 0 <= i < j < v@.len() implies (#[trigger] v@[i])@
            != (#[trigger] v@[j])@ by {
            if j == before.len() {
                assert(v@[i] == before[i]);
                assert(path_set(before).contains(before[i]@));
            } else {
                assert(v@[i] == before[i] && v@[j] == before[j]);
            }
        }
    }
}

/// The presence of fields and the directives of one decode. Every null
/// path is also present.
pub struct Presence {
    present: Vec<String>,
    nulls: Vec<String>,
    directives: Vec<Directive>,
    datasets: Vec<DatasetDirective>,
    protos: Vec<ProtoDirective>,
}

impl Presence {
    #[verifier::type_invariant]
    spec fn inv(self) -> bool {
        &&& distinct_paths(self.present@)
        &&& distinct_paths(self.nulls@)
        &&& path_set(self.nulls@).subset_of(path_set(self.present@))
    }

    /// The paths mentioned, set or null.
    pub closed spec fn present_paths(&self) -> Set<Seq<char>> {
        path_set(self.present@)
    }

    /// The paths assigned `null`.
    pub closed spec fn null_set(&self) -> Set<Seq<char>> {
        path_set(self.nulls@)
    }

    pub closed spec fn directives_view(&self) -> Seq<Directive> {
        self.directives@
    }

    pub closed spec fn datasets_view(&self) -> Seq<DatasetDirective> {
        self.datasets@
    }

    pub closed spec fn protos_view(&self) -> Seq<ProtoDirective> {
        self.protos@
    }

    /// Nothing mentioned and no directives.
    pub fn new() -> (p: Presence)
        ensures
            p.present_paths() == Set::<Seq<char>>::empty(),
            p.null_set() == Set::<Seq<char>>::empty(),
            p.directives_view().len() == 0,
            p.datasets_view().len() == 0,
            p.protos_view().len() == 0,
    {
        let p = Presence {
            present: Vec::new(),
            nulls: Vec::new(),
            directives: Vec::new(),
            datasets: Vec::new(),
            protos: Vec::new(),
        };
        assert(path_set(p.present@) =~= Set::<Seq<char>>::empty());
        assert(path_set(p.nulls@) =~= Set::<Seq<char>>::empty());
        p
    }

    /// Records that `path` was assigned a value.
    pub fn mark_present(&mut self, path: &str)
        ensures
            final(self).present_paths() == old(self).present_paths().insert(path@),
            final(self).null_set() == old(self).null_set(),
            final(self).directives_view() == old(self).directives_view(),
            final(self).datasets_view() == old(self).datasets_view(),
            final(self).protos_view() == old(self).protos_view(),
    {
        proof {
            use_type_invariant(&*self);
        }
        let mut nulls = Vec::new();
        std::mem::swap(&mut nulls, &mut self.nulls);
        let mut present = Vec::new();
        std::mem::swap(&mut present, &mut self.present);
        insert_path(&mut present, path);
        let mut directives = Vec::new();
        std::mem::swap(&mut directives, &mut self.directives);
        let mut datasets = Vec::new();
        std::mem::swap(&mut datasets, &mut self.datasets);
        let mut protos = Vec::new();
        std::mem::swap(&mut protos, &mut self.protos);
        *self = Presence { present, nulls, directives, datasets, protos };
    }

    /// Records that `path` was assigned `null`: it is present, and null.
    pub fn mark_null(&mut self, path: &str)
        ensures
            final(self).present_paths() == old(self).present_paths().insert(path@),
            final(self).null_set() == old(self).null_set().insert(path@),
            final(self).directives_view() == old(self).directives_view(),
            final(self).datasets_view() == old(self).datasets_view(),
            final(self).protos_view() == old(self).protos_view(),
    {
        proof {
            use_type_invariant(&*self);
        }
        let mut nulls = Vec::new();
        std::mem::swap(&mut nulls, &mut self.nulls);
        let mut present = Vec::new();
        std::mem::swap(&mut present, &mut self.present);
        insert_path(&mut present, path);
        insert_path(&mut nulls, path);
        let mut directives = Vec::new();
        std::mem::swap(&mut directives, &mut self.directives);
        let mut datasets = Vec::new();
        std::mem::swap(&mut datasets, &mut self.datasets);
        let mut protos = Vec::new();
        std::mem::swap(&mut protos, &mut self.protos);
        *self = Presence { present, nulls, directives, datasets, protos };
    }

    /// Whether `path` was assigned a non-null value.
    pub fn is_set(&self, path: &str) -> (b: bool)
        ensures
            b == (self.present_paths().contains(path@) && !self.null_set().contains(path@)),
    {
        holds(&self.present, path) && !holds(&self.nulls, path)
    }

    /// Whether `path` was assigned `null`.
    pub fn is_null(&self, path: &str) -> (b: bool)
        ensures
            b == self.null_set().contains(path@),
            b ==> self.present_paths().contains(path@),
    {
        proof {
            use_type_invariant(self);
        }
        holds(&self.nulls, path)
    }

    /// Whether `path` was not mentioned at all.
    pub fn is_absent(&self, path: &str) -> (b: bool)
        ensures
            b == !self.present_paths().contains(path@),
            b ==> !self.null_set().contains(path@),
    {
        proof {
            use_type_invariant(self);
        }
        !holds(&self.present, path)
    }

    /// The paths assigned `null`, each once, in the order they were first
    /// marked.
    pub fn null_paths(&self) -> (v: Vec<String>)
        ensures
            path_set(v@) == self.null_set(),
            distinct_paths(v@),
    {
        proof {
            use_type_invariant(self);
        }
        let mut v: Vec<String> = Vec::new();
        let mut k: usize = 0;
        while k < self.nulls.len()
            invariant
                k <= self.nulls@.len(),
                v@.len() == k,
                forall|i: int| 0 <= i < k ==> (#[trigger] v@[i])@ == self.nulls@[i]@,
            decreases self.nulls@.len() - k,
        {
            v.push(self.nulls[k].clone());
            k = k + 1;
        }
        assert(path_set(v@) =~= path_set(self.nulls@)) by {
            assert forall|q: Seq<char>| path_set(v@).contains(q) implies path_set(
                self.nulls@,
            ).contains(q) by {
                let i = choose|i: int| 0 <= i < v@.len() && (#[trigger] v@[i])@ == q;
                assert(self.nulls@[i]@ == q);
            }
            assert forall|q: Seq<char>| path_set(self.nulls@).contains(q) implies path_set(
                v@,
            ).contains(q) by {
                let i = choose|i: int| 0 <= i < self.nulls@.len() && (#[trigger] self.nulls@[i])@ == q;
                assert(v@[i]@ == q);
            }
        }
        assert forall|i: int, j: int| 0 <= i < j < v@.len() implies (#[trigger] v@[i])@
            != (#[trigger] v@[j])@ by {
            assert(v@[i]@ == self.nulls@[i]@ && v@[j]@ == self.nulls@[j]@);
        }
        v
    }

    /// The generic `@<name>` directives, in source order.
    pub fn directives(&self) -> (d: &[Directive])
        ensures
            d@ == self.directives_view(),
    {
        self.directives.as_slice()
    }

    /// The `@dataset` directives, in source order.
    pub fn datasets(&self) -> (d: &[DatasetDirective])
        ensures
            d@ == self.datasets_view(),
    {
        self.datasets.as_slice()
    }

    /// The `@proto` directives, in source order.
    pub fn protos(&self) -> (d: &[ProtoDirective])
        ensures
            d@ == self.protos_view(),
    {
        self.protos.as_slice()
    }

    pub fn add_directive(&mut self, d: Directive)
        ensures
            final(self).directives_view() == old(self).directives_view().push(d),
            final(self).present_paths() == old(self).present_paths(),
            final(self).null_set() == old(self).null_set(),
            final(self).datasets_view() == old(self).datasets_view(),
            final(self).protos_view() == old(self).protos_view(),
    {
        proof {
            use_type_invariant(&*self);
        }
        let mut items = Vec::new();
        std::mem::swap(&mut items, &mut self.directives);
        items.push(d);
        std::mem::swap(&mut items, &mut self.directives);
    }

    pub fn add_dataset(&mut self, t: DatasetDirective)
        ensures
            final(self).datasets_view() == old(self).datasets_view().push(t),
            final(self).present_paths() == old(self).present_paths(),
            final(self).null_set() == old(self).null_set(),
            final(self).directives_view() == old(self).directives_view(),
            final(self).protos_view() == old(self).protos_view(),
    {
        proof {
            use_type_invariant(&*self);
        }
        let mut items = Vec::new();
        std::mem::swap(&mut items, &mut self.datasets);
        items.push(t);
        std::mem::swap(&mut items, &mut self.datasets);
    }

    pub fn add_proto(&mut self, p: ProtoDirective)
        ensures
            final(self).protos_view() == old(self).protos_view().push(p),
            final(self).present_paths() == old(self).present_paths(),
            final(self).null_set() == old(self).null_set(),
            final(self).directives_view() == old(self).directives_view(),
            final(self).datasets_view() == old(self).datasets_view(),
    {
        proof {
            use_type_invariant(&*self);
        }
        let mut items = Vec::new();
        std::mem::swap(&mut items, &mut self.protos);
        items.push(p);
        std::mem::swap(&mut items, &mut self.protos);
    }
}

} // verus!
