//! The sources that are served, by their names.

use crate::data_source::DataSourceInfo;
use crate::table::Table;
use crate::text::{concat3, is_before};
use vstd::prelude::*;

verus! {

/// A change of the registry.
#[derive(Debug, Clone)]
pub enum RegistryEvent {
    Mounted(String),
    Unmounted(String),
}

impl RegistryEvent {
    /// A source was mounted under a name.
    pub open spec fn mounts(self, name: Seq<char>) -> bool {
        self matches RegistryEvent::Mounted(n) && n@ == name
    }

    /// The source under a name was unmounted.
    pub open spec fn unmounts(self, name: Seq<char>) -> bool {
        self matches RegistryEvent::Unmounted(n) && n@ == name
    }
}

/// The sources that are served. Each change gives back the event that tells of it.
pub struct DataSourceRegistry<S> {
    sources: Table<S>,
}

impl<S> View for DataSourceRegistry<S> {
    type V = Map<Seq<char>, S>;

    closed spec fn view(&self) -> Map<Seq<char>, S> {
        self.sources@
    }
}

impl<S> DataSourceRegistry<S> {
    pub closed spec fn wf(self) -> bool {
        self.sources.wf()
    }

    /// A registry without sources.
    pub fn new() -> (r: Self)
        ensures
            r.wf(),
            r@ == Map::<Seq<char>, S>::empty(),
    {
        DataSourceRegistry { sources: Table::new() }
    }

    /// Serves a source under a name that is free.
    pub fn mount(&mut self, name: &str, source: S) -> (r: Result<RegistryEvent, String>)
        requires
            old(self).wf(),
        ensures
            final(self).wf(),
            r is Ok <==> !old(self)@.dom().contains(name@),
            r is Ok ==> r->Ok_0.mounts(name@) && final(self)@ == old(self)@.insert(name@, source),
            r is Err ==> r->Err_0@ == "DataSource '"@ + name@ + "' already exists"@
                && final(self)@ == old(self)@,
    {
        if self.sources.contains(name) {
            return Err(concat3("DataSource '", name, "' already exists"));
        }
        self.sources.insert(name, source);
        Ok(RegistryEvent::Mounted(name.to_owned()))
    }

    /// Serves a source under a name, in place of any that was there.
    pub fn mount_or_replace(&mut self, name: &str, source: S) -> (event: RegistryEvent)
        requires
            old(self).wf(),
        ensures
            final(self).wf(),
            event.mounts(name@),
            final(self)@ == old(self)@.insert(name@, source),
    {
        self.sources.insert(name, source);
        RegistryEvent::Mounted(name.to_owned())
    }

    /// Serves the source under a name no longer.
    pub fn unmount(&mut self, name: &str) -> (r: Result<RegistryEvent, String>)
        requires
            old(self).wf(),
        ensures
            final(self).wf(),
            final(self)@ == old(self)@.remove(name@),
            r is Ok <==> old(self)@.dom().contains(name@),
            r is Ok ==> r->Ok_0.unmounts(name@),
            r is Err ==> r->Err_0@ == "DataSource '"@ + name@ + "' not found"@,
    {
        match self.sources.remove(name) {
            Some(_source) => Ok(RegistryEvent::Unmounted(name.to_owned())),
            None => Err(concat3("DataSource '", name, "' not found")),
        }
    }

    /// The source under a name.
    pub fn get(&self, name: &str) -> (source: Option<&S>)
        requires
            self.wf(),
        ensures
            source is Some <==> self@.dom().contains(name@),
            source is Some ==> *source->Some_0 == self@[name@],
    {
        self.sources.get(name)
    }

    /// The descriptions of all sources, in the order of the names in them. `describe`
    /// gives the description of a source.
    pub fn list<F, D: Fn(&S) -> DataSourceInfo<F>>(&self, describe: D) -> (r: Vec<
        DataSourceInfo<F>,
    >)
        requires
            self.wf(),
            forall|source: &S| describe.requires((source,)),
        ensures
            in_name_order(r@),
            exists|names: Seq<Seq<char>>, infos: Seq<DataSourceInfo<F>>|
                #![trigger describes_all(self@, names, infos, describe)]
                describes_all(self@, names, infos, describe) && r@.to_multiset()
                    == infos.to_multiset(),
    {
        let names: Vec<String> = self.list_names();
        let ghost keys = crate::text::texts(names@);
        let mut infos: Vec<DataSourceInfo<F>> = Vec::new();
        for i in 0..names.len()
            invariant
                self.wf(),
                forall|source: &S| describe.requires((source,)),
                keys == crate::text::texts(names@),
                keys.to_set() == self@.dom(),
                infos@.len() == i,
                forall|k: int|
                    0 <= k < i ==> describe.ensures((&self@[keys[k]],), #[trigger] infos@[k]),
        {
            proof {
                assert(keys[i as int] == names@[i as int]@);
                assert(keys.contains(keys[i as int]));
                assert(keys.to_set().contains(keys[i as int]));
            }
            match self.get(names[i].as_str()) {
                Some(source) => {
                    infos.push(describe(source));
                },
                None => {},
            }
        }
        let ghost all = infos@;
        assert(describes_all(self@, keys, all, describe));
        sort_infos(infos)
    }

    /// The names of the sources, each once.
    pub fn list_names(&self) -> (names: Vec<String>)
        requires
            self.wf(),
        ensures
            crate::text::texts(names@).no_duplicates(),
            crate::text::texts(names@).to_set() == self@.dom(),
    {
        self.sources.names()
    }

    /// There is a source under a name.
    pub fn contains(&self, name: &str) -> (r: bool)
        requires
            self.wf(),
        ensures
            r == self@.dom().contains(name@),
    {
        self.sources.contains(name)
    }

    /// The number of sources.
    pub fn len(&self) -> (n: usize)
        requires
            self.wf(),
        ensures
            n == self@.dom().len(),
            self@.dom().finite(),
    {
        self.sources.len()
    }
}

impl<S> Default for DataSourceRegistry<S> {
    fn default() -> (r: Self)
        ensures
            r.wf(),
            r@ == Map::<Seq<char>, S>::empty(),
    {
        Self::new()
    }
}

/// A registry to begin with, without sources.
pub fn init_registry<S>() -> (r: DataSourceRegistry<S>)
    ensures
        r.wf(),
        r@ == Map::<Seq<char>, S>::empty(),
{
    DataSourceRegistry::new()
}

/// `infos` describes the sources under `names`, which are all names, each once.
pub open spec fn describes_all<S, F, D: Fn(&S) -> DataSourceInfo<F>>(
    sources: Map<Seq<char>, S>,
    names: Seq<Seq<char>>,
    infos: Seq<DataSourceInfo<F>>,
    describe: D,
) -> bool {
    &&& names.no_duplicates()
    &&& names.to_set() == sources.dom()
    &&& infos.len() == names.len()
    &&& forall|k: int|
        0 <= k < names.len() ==> describe.ensures(
            (&sources[names[k]],),
            #[trigger] infos[k],
        )
}

/// Descriptions of sources in the order of their names.
pub open spec fn in_name_order<F>(infos: Seq<DataSourceInfo<F>>) -> bool {
    forall|i: int, j: int|
        0 <= i < j < infos.len() ==> !crate::text::text_before(
            (#[trigger] infos[j]).name@,
            (#[trigger] infos[i]).name@,
        )
}

/// Puts the descriptions of sources in the order of their names.
pub fn sort_infos<F>(infos: Vec<DataSourceInfo<F>>) -> (r: Vec<DataSourceInfo<F>>)
    ensures
        in_name_order(r@),
        r@.to_multiset() == infos@.to_multiset(),
{
    broadcast use vstd::seq_lib::group_to_multiset_ensures;

    let mut rest: Vec<DataSourceInfo<F>> = infos;
    let mut r: Vec<DataSourceInfo<F>> = Vec::new();
    let ghost all = rest@.to_multiset();
    proof {
        assert(r@.to_multiset() =~= vstd::multiset::Multiset::empty());
        assert(r@.to_multiset().add(rest@.to_multiset()) =~= all);
    }
    while rest.len() > 0
        invariant
            in_name_order(r@),
            r@.to_multiset().add(rest@.to_multiset()) == all,
        decreases rest@.len(),
    {
        let ghost before_rest = rest@;
        let n: usize = rest.len();
        let info: DataSourceInfo<F> = rest.remove(n - 1);
        let mut at: usize = 0;
        while at < r.len() && is_before(r[at].name.as_str(), info.name.as_str())
            invariant
                at <= r@.len(),
                forall|k: int|
                    0 <= k < at ==> crate::text::text_before(
                        (#[trigger] r@[k]).name@,
                        info.name@,
                    ),
            decreases r@.len() - at,
        {
            at += 1;
        }
        let ghost before = r@;
        r.insert(at, info);
        proof {
            assert(r@ =~= before.insert(at as int, info));
            before.insert_ensures(at as int, info);
            vstd::seq_lib::to_multiset_insert(before, at as int, info);
            vstd::seq_lib::to_multiset_remove(before_rest, n - 1);
            assert(rest@ =~= before_rest.remove(n - 1));
            assert(before_rest[n - 1] == info);
            assert(before_rest.contains(info));
            assert(before_rest.to_multiset().count(info) > 0) by {
                before_rest.to_multiset_ensures();
            }
            assert(r@.to_multiset().add(rest@.to_multiset()) =~= all);
            assert forall|i: int, j: int| 0 <= i < j < r@.len() implies !crate::text::text_before(
                (#[trigger] r@[j]).name@,
                (#[trigger] r@[i]).name@,
            ) by {
                let a = r@[i].name@;
                let b = r@[j].name@;
                crate::text::law_text_order_total(a, b);
                if i == at {
                    let first = before[at as int].name@;
                    assert(!crate::text::text_before(first, info.name@));
                    if j > at + 1 {
                        assert(!crate::text::text_before(b, first));
                        crate::text::law_text_order_total(b, info.name@);
                        crate::text::law_text_order_total(b, first);
                        if crate::text::text_before(b, info.name@) {
                            crate::text::law_text_order_total(first, info.name@);
                            if crate::text::text_before(first, b) {
                                crate::text::law_text_order_transitive(first, b, info.name@);
                            }
                        }
                    }
                }
            }
        }
    }
    proof {
        assert(rest@ =~= Seq::empty());
        assert(rest@.to_multiset() =~= vstd::multiset::Multiset::empty());
        assert(r@.to_multiset() =~= all);
    }
    r
}

/// Mounting under a free name and unmounting again leaves the registry as it was.
pub proof fn law_mount_unmount<S>(before: Map<Seq<char>, S>, name: Seq<char>, source: S)
    requires
        !before.dom().contains(name),
    ensures
        before.insert(name, source).remove(name) == before,
        before.insert(name, source)[name] == source,
{
    assert(before.insert(name, source).remove(name) =~= before);
}

// ─── What holds of the registry ───

/// An event tells of the name that it holds, and no event tells of both changes.
pub proof fn law_events_tell_names(event: RegistryEvent, name: Seq<char>)
    ensures
        event.mounts(name) <==> event is Mounted && event->Mounted_0@ == name,
        event.unmounts(name) <==> event is Unmounted && event->Unmounted_0@ == name,
{
}

proof fn lemma_same_members<A>(a: Seq<A>, b: Seq<A>, x: A)
    requires
        a.to_multiset() == b.to_multiset(),
    ensures
        a.len() == b.len(),
        a.contains(x) <==> b.contains(x),
{
    broadcast use vstd::seq_lib::group_to_multiset_ensures;

    assert(a.contains(x) <==> a.to_multiset().count(x) > 0);
    assert(b.contains(x) <==> b.to_multiset().count(x) > 0);
    assert(a.to_multiset().len() == a.len());
    assert(b.to_multiset().len() == b.len());
}

/// The list of sources describes every source, and nothing else, once each, in the order of
/// the names that the descriptions hold.
pub proof fn law_list_describes_every_source<S, F, D: Fn(&S) -> DataSourceInfo<F>>(
    registry: &DataSourceRegistry<S>,
    describe: D,
    r: Vec<DataSourceInfo<F>>,
    name: Seq<char>,
    i: int,
    j: int,
)
    requires
        call_ensures(DataSourceRegistry::<S>::list::<F, D>, (registry, describe), r),
    ensures
        r@.len() == registry@.dom().len(),
        registry@.dom().contains(name) ==> exists|k: int|
            0 <= k < r@.len() && describe.ensures((&registry@[name],), #[trigger] r@[k]),
        0 <= i < r@.len() ==> exists|n: Seq<char>| #[trigger]
            registry@.dom().contains(n) && describe.ensures((&registry@[n],), r@[i]),
        0 <= i < j < r@.len() ==> !crate::text::text_before(r@[j].name@, r@[i].name@),
{
    let (names, infos) = choose|names: Seq<Seq<char>>, infos: Seq<DataSourceInfo<F>>|
        #![trigger describes_all(registry@, names, infos, describe)]
        describes_all(registry@, names, infos, describe) && r@.to_multiset()
            == infos.to_multiset();
    assert(describes_all(registry@, names, infos, describe));
    names.unique_seq_to_set();
    r@.to_multiset_ensures();
    infos.to_multiset_ensures();
    assert(r@.len() == infos.len());
    if registry@.dom().contains(name) {
        assert(names.to_set().contains(name));
        let k = choose|k: int| 0 <= k < names.len() && names[k] == name;
        assert(infos.contains(infos[k]));
        lemma_same_members(r@, infos, infos[k]);
        let m = choose|m: int| 0 <= m < r@.len() && r@[m] == infos[k];
        assert(describe.ensures((&registry@[name],), r@[m]));
    }
    if 0 <= i < r@.len() {
        assert(r@.contains(r@[i]));
        lemma_same_members(r@, infos, r@[i]);
        let k = choose|k: int| 0 <= k < infos.len() && infos[k] == r@[i];
        assert(names.to_set().contains(names[k]));
        assert(registry@.dom().contains(names[k]));
        assert(describe.ensures((&registry@[names[k]],), infos[k]));
    }
}

/// Descriptions are put in the order of their names, and none is lost or added.
pub proof fn law_descriptions_are_sorted<F>(
    infos: Vec<DataSourceInfo<F>>,
    r: Vec<DataSourceInfo<F>>,
    i: int,
    j: int,
    info: DataSourceInfo<F>,
)
    requires
        call_ensures(sort_infos::<F>, (infos,), r),
    ensures
        r@.len() == infos@.len(),
        r@.contains(info) <==> infos@.contains(info),
        0 <= i < j < r@.len() ==> !crate::text::text_before(r@[j].name@, r@[i].name@),
{
    lemma_same_members(r@, infos@, info);
}

} // verus!
