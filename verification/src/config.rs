//! The two shapes of configuration, and what they ask to be probed.

use vstd::prelude::*;
use vstd::string::*;
use indexmap::IndexMap;
use crate::cluster::{cluster_by_ancestor, is_clustering};
use crate::grouping::{
    group_by_section, heading_of, lemma_grouped_prefix, lemma_picked_suffix, section_labels,
    sectioned, string_views,
};
use crate::model::{
    Group, GroupView, ProbeInput, ProbeInputView, RepoResult, RepoResultView, group_views,
    row_views,
};

verus! {

/// A configuration with named sections: section name to label to directory,
/// both in the order of the file.
#[derive(Debug)]
pub struct SectionedConfig {
    pub sections: IndexMap<String, IndexMap<String, String>>,
}

/// A configuration that only lists directories.
#[derive(Debug)]
pub struct FlatConfig {
    pub directories: Vec<String>,
}

/// What a map of sections holds: the sections in the order in which they
/// were inserted, each with its entries in the order in which they were
/// inserted.
pub uninterp spec fn section_entries(m: IndexMap<String, IndexMap<String, String>>) -> Seq<
    (Seq<char>, Seq<(Seq<char>, Seq<char>)>),
>;

/// The view of one entry.
pub open spec fn entry_view(entry: (String, String)) -> (Seq<char>, Seq<char>) {
    (entry.0@, entry.1@)
}

/// The view of one section.
pub open spec fn section_view(section: (String, Vec<(String, String)>)) -> (
    Seq<char>,
    Seq<(Seq<char>, Seq<char>)>,
) {
    (section.0@, section.1@.map_values(|e: (String, String)| entry_view(e)))
}

/// The views of sections.
pub open spec fn section_views(list: Seq<(String, Vec<(String, String)>)>) -> Seq<
    (Seq<char>, Seq<(Seq<char>, Seq<char>)>),
> {
    list.map_values(|s: (String, Vec<(String, String)>)| section_view(s))
}

/// True when no two sections have the same name.
pub open spec fn distinct_names(sections: Seq<(Seq<char>, Seq<(Seq<char>, Seq<char>)>)>) -> bool {
    forall|i: int, j: int|
        0 <= i < j < sections.len() ==> (#[trigger] sections[i]).0 != (#[trigger] sections[j]).0
}

/// `IndexMap::iter`, on the map of sections and on each section: copies of
/// all keys and values, in the maps' order. A map holds no key twice, so
/// the names of the sections differ.
#[verifier::external_body]
pub(crate) fn section_list(m: &IndexMap<String, IndexMap<String, String>>) -> (out: Vec<
    (String, Vec<(String, String)>),
>)
    ensures
        section_views(out@) == section_entries(*m),
        distinct_names(section_views(out@)),
{
    m.iter().map(
        |(name, entries)|
            (name.clone(), entries.iter().map(|(label, dir)| (label.clone(), dir.clone())).collect()),
    ).collect()
}

/// The names of sections.
pub open spec fn names_of(sections: Seq<(Seq<char>, Seq<(Seq<char>, Seq<char>)>)>) -> Seq<
    Seq<char>,
> {
    sections.map_values(|s: (Seq<char>, Seq<(Seq<char>, Seq<char>)>)| s.0)
}

/// What one section asks to be probed: its directories, under its name.
pub open spec fn section_inputs(section: (Seq<char>, Seq<(Seq<char>, Seq<char>)>)) -> Seq<
    ProbeInputView,
> {
    section.1.map_values(
        |e: (Seq<char>, Seq<char>)| ProbeInputView { directory: e.1, group: Some(section.0) },
    )
}

/// What a configuration with sections asks to be probed: the entries of
/// its sections, one section after the other.
pub open spec fn planned(sections: Seq<(Seq<char>, Seq<(Seq<char>, Seq<char>)>)>) -> Seq<
    ProbeInputView,
>
    decreases sections.len(),
{
    if sections.len() == 0 {
        Seq::empty()
    } else {
        planned(sections.drop_last()) + section_inputs(sections.last())
    }
}

/// The views of probe inputs.
pub open spec fn input_views(inputs: Seq<ProbeInput>) -> Seq<ProbeInputView> {
    inputs.map_values(|p: ProbeInput| p@)
}

/// What a list of directories asks to be probed: each directory, under no
/// section.
pub open spec fn planned_flat(directories: Seq<Seq<char>>) -> Seq<ProbeInputView> {
    directories.map_values(|d: Seq<char>| ProbeInputView { directory: d, group: None })
}

/// The names of the sections, in order.
pub fn section_names(list: &Vec<(String, Vec<(String, String)>)>) -> (out: Vec<String>)
    ensures
        string_views(out@) == names_of(section_views(list@)),
{
    let mut out: Vec<String> = Vec::new();
    let mut i: usize = 0;
    while i < list.len()
        invariant
            i <= list@.len(),
            string_views(out@) == names_of(section_views(list@)).take(i as int),
        decreases list@.len() - i,
    {
        let ghost earlier = out@;
        let name = list[i].0.clone();
        out.push(name);
        assert(string_views(out@) =~= string_views(earlier).push(name@));
        assert(string_views(out@) =~= names_of(section_views(list@)).take(i + 1));
        i += 1;
    }
    assert(names_of(section_views(list@)).take(i as int) =~= names_of(section_views(list@)));
    out
}

/// The entries to probe, section after section.
pub fn plan_sections(list: &Vec<(String, Vec<(String, String)>)>) -> (out: Vec<ProbeInput>)
    ensures
        input_views(out@) == planned(section_views(list@)),
{
    let mut out: Vec<ProbeInput> = Vec::new();
    let mut i: usize = 0;
    assert(section_views(list@).take(0) =~= Seq::empty());
    assert(input_views(out@) =~= planned(section_views(list@).take(0)));
    while i < list.len()
        invariant
            i <= list@.len(),
            input_views(out@) == planned(section_views(list@).take(i as int)),
        decreases list@.len() - i,
    {
        let ghost done = input_views(out@);
        let ghost section = section_view(list@[i as int]);
        let mut j: usize = 0;
        assert(input_views(out@) =~= done + section_inputs(section).take(0));
        while j < list[i].1.len()
            invariant
                i < list@.len(),
                j <= list@[i as int].1@.len(),
                section == section_view(list@[i as int]),
                input_views(out@) == done + section_inputs(section).take(j as int),
            decreases list@[i as int].1@.len() - j,
        {
            let ghost earlier = out@;
            let input = ProbeInput {
                directory: list[i].1[j].1.clone(),
                group: Some(list[i].0.clone()),
            };
            assert(input@ == section_inputs(section)[j as int]);
            out.push(input);
            assert(input_views(out@) =~= input_views(earlier).push(input@));
            assert(input_views(out@) =~= done + section_inputs(section).take(j + 1));
            j += 1;
        }
        proof {
            assert(section_inputs(section).take(j as int) =~= section_inputs(section));
            let now = section_views(list@).take(i + 1);
            assert(now.drop_last() =~= section_views(list@).take(i as int));
            assert(now.last() == section);
        }
        i += 1;
    }
    assert(section_views(list@).take(i as int) =~= section_views(list@));
    out
}

/// The directories to probe, in order, under no section.
pub fn plan_flat(directories: &Vec<String>) -> (out: Vec<ProbeInput>)
    ensures
        input_views(out@) == planned_flat(string_views(directories@)),
{
    let mut out: Vec<ProbeInput> = Vec::new();
    let mut i: usize = 0;
    while i < directories.len()
        invariant
            i <= directories@.len(),
            input_views(out@) == planned_flat(string_views(directories@)).take(i as int),
        decreases directories@.len() - i,
    {
        let ghost earlier = out@;
        let input = ProbeInput { directory: directories[i].clone(), group: None };
        out.push(input);
        assert(input_views(out@) =~= input_views(earlier).push(input@));
        assert(input_views(out@) =~= planned_flat(string_views(directories@)).take(i + 1));
        i += 1;
    }
    assert(planned_flat(string_views(directories@)).take(i as int) =~= planned_flat(
        string_views(directories@),
    ));
    out
}

impl SectionedConfig {
    /// The entries to probe, in the order of the configuration.
    pub fn plan(&self) -> (out: Vec<ProbeInput>)
        ensures
            input_views(out@) == planned(section_entries(self.sections)),
    {
        let list = section_list(&self.sections);
        plan_sections(&list)
    }

    /// The report of the probed rows: a group for each section that has
    /// rows, in the order of the configuration.
    pub fn report(&self, rows: &Vec<RepoResult>) -> (out: Vec<Group>)
        ensures
            group_views(out@) == sectioned(
                names_of(section_entries(self.sections)),
                row_views(rows@),
            ),
    {
        let list = section_list(&self.sections);
        let names = section_names(&list);
        group_by_section(&names, rows)
    }
}

impl FlatConfig {
    /// The directories to probe, in the order of the configuration.
    pub fn plan(&self) -> (out: Vec<ProbeInput>)
        ensures
            input_views(out@) == planned_flat(string_views(self.directories@)),
    {
        plan_flat(&self.directories)
    }

    /// The report of the probed rows, clustered by directory.
    pub fn report(&self, rows: &Vec<RepoResult>) -> (out: Vec<Group>)
        ensures
            is_clustering(group_views(out@), row_views(rows@)),
    {
        cluster_by_ancestor(rows)
    }
}

/// The configuration file that is read for a user when none is named: the
/// home file for the user `zach`, the work file for everybody else; with
/// sections it is a TOML file, without them a JSON file.
pub open spec fn default_file_of(user: Seq<char>, with_sections: bool) -> Seq<char> {
    if user == "zach"@ {
        if with_sections {
            "config-home.toml"@
        } else {
            "config-home.json"@
        }
    } else {
        if with_sections {
            "config-work.toml"@
        } else {
            "config-work.json"@
        }
    }
}

/// The configuration file that is read for a user when none is named.
pub fn default_file(user: &str, with_sections: bool) -> (out: &'static str)
    ensures
        out@ == default_file_of(user@, with_sections),
{
    let at_home = String::from_str(user) == String::from_str("zach");
    if at_home {
        if with_sections {
            "config-home.toml"
        } else {
            "config-home.json"
        }
    } else {
        if with_sections {
            "config-work.toml"
        } else {
            "config-work.json"
        }
    }
}

/// The configuration file to read: the one named on the command line,
/// else the one named in the environment, else the user's default.
pub open spec fn config_file_of(
    named: Option<Seq<char>>,
    from_environment: Option<Seq<char>>,
    user: Seq<char>,
    with_sections: bool,
) -> Seq<char> {
    match named {
        Some(path) => path,
        None => match from_environment {
            Some(path) => path,
            None => default_file_of(user, with_sections),
        },
    }
}

/// The configuration file to read.
pub fn config_file(
    named: Option<String>,
    from_environment: Option<String>,
    user: &str,
    with_sections: bool,
) -> (out: String)
    ensures
        out@ == config_file_of(
            match named {
                Some(path) => Some(path@),
                None => None,
            },
            match from_environment {
                Some(path) => Some(path@),
                None => None,
            },
            user@,
            with_sections,
        ),
{
    match named {
        Some(path) => path,
        None => match from_environment {
            Some(path) => path,
            None => String::from_str(default_file(user, with_sections)),
        },
    }
}

/// True when `rows` are the rows of what `sections` asks to be probed:
/// one for each entry, in order, each under its section's name.
pub open spec fn follows_plan(
    sections: Seq<(Seq<char>, Seq<(Seq<char>, Seq<char>)>)>,
    rows: Seq<RepoResultView>,
) -> bool {
    &&& rows.len() == planned(sections).len()
    &&& forall|i: int|
        0 <= i < rows.len() ==> (#[trigger] rows[i]).group == planned(sections)[i].label()
}

/// The rows cut into the blocks of their sections: for each section that
/// has entries, in the order of the configuration, a group with as many
/// rows as the section has entries, taken from `rows` in order.
pub open spec fn blocks(
    sections: Seq<(Seq<char>, Seq<(Seq<char>, Seq<char>)>)>,
    rows: Seq<RepoResultView>,
) -> Seq<GroupView>
    decreases sections.len(),
{
    if sections.len() == 0 {
        Seq::empty()
    } else {
        let cut = planned(sections.drop_last()).len() as int;
        let before = blocks(sections.drop_last(), rows.take(cut));
        let name = sections.last().0;
        if sections.last().1.len() > 0 {
            before.push(GroupView { key: name, name: heading_of(name, false), rows: rows.skip(cut) })
        } else {
            before
        }
    }
}

/// Every planned input carries the name of one of the sections.
proof fn lemma_planned_label(sections: Seq<(Seq<char>, Seq<(Seq<char>, Seq<char>)>)>, i: int) -> (j:
    int)
    requires
        0 <= i < planned(sections).len(),
    ensures
        0 <= j < sections.len(),
        planned(sections)[i].label() == sections[j].0,
    decreases sections.len(),
{
    let front = sections.drop_last();
    if i < planned(front).len() {
        let j = lemma_planned_label(front, i);
        assert(front[j] == sections[j]);
        j
    } else {
        sections.len() - 1
    }
}

/// Grouping by section keeps the order of the configuration: the groups
/// are the sections that have entries, in their order, and the rows of
/// each group are the rows of the section's entries, in their order.
pub proof fn lemma_sections_keep_order(
    sections: Seq<(Seq<char>, Seq<(Seq<char>, Seq<char>)>)>,
    rows: Seq<RepoResultView>,
)
    requires
        distinct_names(sections),
        follows_plan(sections, rows),
    ensures
        sectioned(names_of(sections), rows) == blocks(sections, rows),
    decreases sections.len(),
{
    let names = names_of(sections);
    let labels = section_labels(rows);
    if sections.len() == 0 {
        assert(sectioned(names, rows) =~= blocks(sections, rows));
    } else {
        let front = sections.drop_last();
        let last = sections.last();
        let cut = planned(front).len() as int;
        let front_rows = rows.take(cut);
        assert(names.drop_last() =~= names_of(front));
        assert(names.last() == last.0);
        assert forall|i: int| 0 <= i < cut implies #[trigger] labels[i] != last.0 by {
            let j = lemma_planned_label(front, i);
            assert(planned(sections)[i] == planned(front)[i]);
            assert(rows[i].group == planned(sections)[i].label());
            assert(sections[j].0 != sections[sections.len() - 1].0);
        }
        assert forall|i: int| cut <= i < labels.len() implies #[trigger] labels[i] == last.0 by {
            assert(planned(sections)[i] == section_inputs(last)[i - cut]);
            assert(rows[i].group == planned(sections)[i].label());
        }
        assert(distinct_names(front)) by {
            assert forall|i: int, j: int| 0 <= i < j < front.len() implies (#[trigger] front[i]).0 != (
            #[trigger] front[j]).0 by {
                assert(sections[i].0 != sections[j].0);
            }
        }
        assert(follows_plan(front, front_rows)) by {
            assert forall|i: int| 0 <= i < front_rows.len() implies (#[trigger] front_rows[i]).group
                == planned(front)[i].label() by {
                assert(planned(sections)[i] == planned(front)[i]);
                assert(rows[i].group == planned(sections)[i].label());
            }
        }
        lemma_sections_keep_order(front, front_rows);
        assert forall|i: int, j: int|
            cut <= i < labels.len() && 0 <= j < names_of(front).len() implies #[trigger] labels[i]
            != #[trigger] names_of(front)[j] by {
            assert(sections[j].0 != sections[sections.len() - 1].0);
        }
        lemma_grouped_prefix(names_of(front), labels, rows, cut, false);
        assert(labels.take(cut) =~= section_labels(front_rows));
        lemma_picked_suffix(labels, rows, cut, last.0);
        if last.1.len() > 0 {
            assert(labels[cut] == last.0);
            assert(labels.contains(last.0));
        } else {
            if labels.contains(last.0) {
                let i = choose|i: int| 0 <= i < labels.len() && labels[i] == last.0;
                assert(labels[i] != last.0);
            }
        }
    }
}

} // verus!
