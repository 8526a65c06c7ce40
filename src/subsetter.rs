//! The tag registry and the dispatcher: allow-lists become groups, and each
//! record is routed to the group of its tag value.

use vstd::prelude::*;
use vstd::hash_map::StringHashMap;
use vstd::string::StringExecFns;

use crate::record::{get_tag_value, tag_value_of, TagEntry, TagError, TagRecord};

verus! {

/// The group of value `v` once `lists` were registered in this order: the
/// last list that holds it, since a later registration overrides an earlier one.
pub open spec fn group_of(lists: Seq<Seq<Seq<char>>>, v: Seq<char>) -> Option<nat>
    decreases lists.len(),
{
    if lists.len() == 0 {
        None
    } else if lists.last().contains(v) {
        Some((lists.len() - 1) as nat)
    } else {
        group_of(lists.drop_last(), v)
    }
}

/// The group that hash map `m` gives value `v`.
pub open spec fn map_group(m: Map<Seq<char>, usize>, v: Seq<char>) -> Option<nat> {
    if m.contains_key(v) {
        Some(m[v] as nat)
    } else {
        None
    }
}

/// The characters of each string.
pub open spec fn string_views(s: Seq<String>) -> Seq<Seq<char>> {
    s.map_values(|x: String| x@)
}

/// Where a record with tag table `tags` goes: the group of its tag value,
/// nowhere when it has none, or the error of a value that is not text.
pub open spec fn route_of(lists: Seq<Seq<Seq<char>>>, tags: Seq<TagEntry>, key: [u8; 2]) -> Result<Option<nat>, TagError> {
    match tag_value_of(tags, key) {
        Ok(Some(v)) => Ok(group_of(lists, v)),
        Ok(None) => Ok(None),
        Err(e) => Err(e),
    }
}

/// A routing result with the group id as a natural number.
pub open spec fn route_result_view(r: Result<Option<usize>, TagError>) -> Result<Option<nat>, TagError> {
    match r {
        Ok(Some(g)) => Ok(Some(g as nat)),
        Ok(None) => Ok(None),
        Err(e) => Err(e),
    }
}

/// A group id given by `group_of` names one of the registered lists, and that list holds the value.
pub proof fn lemma_group_of_bounds(lists: Seq<Seq<Seq<char>>>, v: Seq<char>)
    ensures
        group_of(lists, v) matches Some(g) ==> g < lists.len() && lists[g as int].contains(v),
    decreases lists.len(),
{
    if lists.len() > 0 && !lists.last().contains(v) {
        lemma_group_of_bounds(lists.drop_last(), v);
    }
}

/// Why an allow-list file could not be registered.
#[derive(Debug, Clone, Copy, PartialEq, Eq, Structural)]
pub enum ListError {
    /// The path has no file name to name the group's output after.
    NoFileName,
}

/// The file stem of `path`: its final component without the last extension.
pub uninterp spec fn file_stem_of(path: Seq<char>) -> Option<Seq<char>>;

/// Relies on `std::path::Path::file_stem`: the stem of the path's final
/// component, or nothing when the path has no file name; the result depends
/// on the path alone.
#[verifier::external_body]
fn file_stem(path: &str) -> (r: Option<String>)
    ensures
        r is Some == file_stem_of(path@) is Some,
        r matches Some(s) ==> file_stem_of(path@) == Some(s@),
{
    std::path::Path::new(path).file_stem().map(|s| s.to_string_lossy().into_owned())
}

/// The output name of the group read from a file with stem `stem`.
pub open spec fn output_name(prefix: Seq<char>, stem: Seq<char>) -> Seq<char> {
    prefix + stem + ".bam"@
}

/// Routes records to groups by the value of a two-byte tag. Each registered
/// allow-list is one group; group ids count up from 0 in registration order.
pub struct Subsetter {
    tags: StringHashMap<usize>,
    ofile_writers: usize,
    ofile_names: Vec<String>,
    lists: Ghost<Seq<Seq<Seq<char>>>>,
}

impl Subsetter {
    /// The registered allow-lists, in registration order.
    pub closed spec fn registered(&self) -> Seq<Seq<Seq<char>>> {
        self.lists@
    }

    /// The output name of each group, by group id.
    pub closed spec fn labels(&self) -> Seq<Seq<char>> {
        string_views(self.ofile_names@)
    }

    /// The group count and names agree with the registered lists, and the
    /// hash map sends each value to the group that the lists give it.
    pub closed spec fn wf(&self) -> bool {
        &&& self.ofile_writers == self.lists@.len()
        &&& self.ofile_names@.len() == self.lists@.len()
        &&& forall|v: Seq<char>| #[trigger] map_group(self.tags@, v) == group_of(self.lists@, v)
    }

    /// The value-to-group map the registry holds.
    pub closed spec fn value_map(&self) -> Map<Seq<char>, usize> {
        self.tags@
    }

    /// The number of groups, one per registered list.
    pub open spec fn n_groups(&self) -> nat {
        self.registered().len()
    }

    /// A registry is determined by its lists and output names: two that
    /// agree on both hold the same value map and group count. As `new` starts
    /// from no lists and each registration appends one, two runs of the same
    /// registrations end in the same registry.
    pub proof fn lemma_registry_determined(a: &Subsetter, b: &Subsetter)
        requires
            a.wf(),
            b.wf(),
            a.registered() == b.registered(),
            a.labels() == b.labels(),
        ensures
            a.value_map() == b.value_map(),
            a.n_groups() == b.n_groups(),
    {
        assert forall|v: Seq<char>| #[trigger] a.tags@.contains_key(v) == b.tags@.contains_key(v) && (a.tags@.contains_key(v) ==> a.tags@[v] == b.tags@[v]) by {
            assert(map_group(a.tags@, v) == group_of(a.lists@, v));
            assert(map_group(b.tags@, v) == group_of(b.lists@, v));
        }
        assert(a.tags@ =~= b.tags@);
    }

    /// An empty registry: no groups yet.
    pub fn new() -> (r: Self)
        ensures
            r.wf(),
            r.registered() == Seq::<Seq<Seq<char>>>::empty(),
            r.labels() == Seq::<Seq<char>>::empty(),
    {
        let r = Subsetter {
            tags: StringHashMap::new(),
            ofile_writers: 0,
            ofile_names: Vec::with_capacity(100),
            lists: Ghost(Seq::empty()),
        };
        assert(r.labels() =~= Seq::<Seq<char>>::empty());
        r
    }

    /// Registers the lines of allow-list file `bc_file` as a new group, whose
    /// output is named after `prefix` and the file's stem; returns its id.
    pub fn read_simple_list(&mut self, bc_file: &str, lines: Vec<String>, prefix: &str) -> (r: Result<usize, ListError>)
        requires
            old(self).wf(),
            old(self).n_groups() < usize::MAX,
        ensures
            final(self).wf(),
            match r {
                Ok(id) => {
                    &&& file_stem_of(bc_file@) matches Some(stem)
                    &&& id == old(self).n_groups()
                    &&& final(self).registered() == old(self).registered().push(string_views(lines@))
                    &&& final(self).labels() == old(self).labels().push(output_name(prefix@, stem))
                    &&& forall|v: Seq<char>| #[trigger] group_of(final(self).registered(), v) == if string_views(lines@).contains(v) {
                        Some(id as nat)
                    } else {
                        group_of(old(self).registered(), v)
                    }
                    &&& forall|v: Seq<char>| (#[trigger] group_of(final(self).registered(), v) == Some(id as nat)) == string_views(lines@).contains(v)
                },
                Err(e) => {
                    &&& e == ListError::NoFileName
                    &&& file_stem_of(bc_file@) is None
                    &&& *final(self) == *old(self)
                },
            },
    {
        match file_stem(bc_file) {
            Some(stem) => {
                let mut label = String::from_str(prefix);
                label.append(stem.as_str());
                label.append(".bam");
                Ok(self.register(lines, label))
            },
            None => Err(ListError::NoFileName),
        }
    }

    /// The output name of each group, by group id.
    pub fn ofile_names(&self) -> (r: &Vec<String>)
        ensures
            string_views(r@) == self.labels(),
            self.wf() ==> r@.len() == self.n_groups(),
    {
        &self.ofile_names
    }

    /// The number of registered groups.
    pub fn group_count(&self) -> (r: usize)
        requires
            self.wf(),
        ensures
            r == self.n_groups(),
    {
        self.ofile_writers
    }

    /// Registers one allow-list as a new group named `label`, and returns its id.
    pub fn register(&mut self, values: Vec<String>, label: String) -> (id: usize)
        requires
            old(self).wf(),
            old(self).n_groups() < usize::MAX,
        ensures
            final(self).wf(),
            id == old(self).n_groups(),
            final(self).registered() == old(self).registered().push(string_views(values@)),
            final(self).labels() == old(self).labels().push(label@),
            forall|v: Seq<char>| #[trigger] group_of(final(self).registered(), v) == if string_views(values@).contains(v) {
                Some(id as nat)
            } else {
                group_of(old(self).registered(), v)
            },
            forall|v: Seq<char>| (#[trigger] group_of(final(self).registered(), v) == Some(id as nat)) == string_views(values@).contains(v),
    {
        let id = self.ofile_writers;
        let ghost old_lists = self.lists@;
        let ghost vals = string_views(values@);
        let mut i: usize = 0;
        while i < values.len()
            invariant
                i <= values@.len(),
                id == old_lists.len(),
                self.lists@ == old_lists,
                self.ofile_writers == old(self).ofile_writers,
                self.ofile_names == old(self).ofile_names,
                old_lists == old(self).lists@,
                vals == string_views(values@),
                forall|v: Seq<char>| #[trigger] map_group(self.tags@, v) == if vals.subrange(0, i as int).contains(v) {
                    Some(id as nat)
                } else {
                    group_of(old_lists, v)
                },
            decreases values@.len() - i,
        {
            let value = values[i].clone();
            let ghost before = self.tags@;
            self.tags.insert(value, id);
            proof {
                let pre = vals.subrange(0, i as int);
                let post = vals.subrange(0, i + 1);
                assert(vals[i as int] == values@[i as int]@);
                assert forall|v: Seq<char>| #[trigger] post.contains(v) == (pre.contains(v) || v == vals[i as int]) by {
                    if pre.contains(v) {
                        let j = choose|j: int| 0 <= j < pre.len() && pre[j] == v;
                        assert(post[j] == v);
                    }
                    if v == vals[i as int] {
                        assert(post[i as int] == v);
                    }
                    if post.contains(v) {
                        let j = choose|j: int| 0 <= j < post.len() && post[j] == v;
                        if j < i {
                            assert(pre[j] == v);
                        }
                    }
                }
                assert forall|v: Seq<char>| #[trigger] map_group(self.tags@, v) == if post.contains(v) {
                    Some(id as nat)
                } else {
                    group_of(old_lists, v)
                } by {
                    assert(map_group(before, v) == if pre.contains(v) {
                        Some(id as nat)
                    } else {
                        group_of(old_lists, v)
                    });
                    assert(post.contains(v) == (pre.contains(v) || v == vals[i as int]));
                }
            }
            i += 1;
        }
        let ghost new_lists = old_lists.push(vals);
        proof {
            assert(vals.subrange(0, vals.len() as int) =~= vals);
            assert(new_lists.drop_last() =~= old_lists);
            assert forall|v: Seq<char>| #[trigger] map_group(self.tags@, v) == group_of(new_lists, v) by {
                assert(new_lists.last() == vals);
            }
        }
        self.ofile_names.push(label);
        self.ofile_writers = id + 1;
        self.lists = Ghost(new_lists);
        proof {
            assert(self.labels() =~= old(self).labels().push(label@));
            assert forall|v: Seq<char>| (#[trigger] group_of(new_lists, v) == Some(id as nat)) == vals.contains(v) by {
                lemma_group_of_bounds(old_lists, v);
            }
        }
        id
    }

    /// The group of tag value `value`, if a registered list holds it.
    pub fn lookup(&self, value: &str) -> (r: Option<usize>)
        requires
            self.wf(),
        ensures
            match r {
                Some(g) => group_of(self.registered(), value@) == Some(g as nat) && g < self.n_groups(),
                None => group_of(self.registered(), value@) is None,
            },
    {
        proof {
            assert(map_group(self.tags@, value@) == group_of(self.lists@, value@));
            lemma_group_of_bounds(self.lists@, value@);
        }
        match self.tags.get(value) {
            Some(g) => Some(*g),
            None => None,
        }
    }

    /// Where `record` goes: the group of its value of tag `tag`, if any.
    pub fn process_record(&self, record: &TagRecord, tag: &[u8; 2]) -> (r: Result<Option<usize>, TagError>)
        requires
            self.wf(),
        ensures
            route_result_view(r) == route_of(self.registered(), record.tags@, *tag),
            r matches Ok(Some(g)) ==> g < self.n_groups(),
    {
        match get_tag_value(record, tag) {
            Ok(Some(value)) => Ok(self.lookup(value.as_str())),
            Ok(None) => Ok(None),
            Err(e) => Err(e),
        }
    }
}

} // verus!
