//! What is known of a workspace, and which of its files are selected.

use vstd::prelude::*;
use vstd::string::*;

use crate::agentsee;
use crate::agentsee::Agentsee;
use crate::matching;
use crate::order;
use crate::order::{sort, text_le, Ranked};
use crate::text;
use crate::text::to_slashes;

verus! {

/// The `.agentsee` file at the root of a workspace.
pub enum AgentseeFile {
    /// There is none.
    Missing,
    /// There is one that cannot be read as text.
    Unreadable,
    /// The text of the file.
    Text(String),
}

/// One entry that a walk of the workspace came upon.
pub struct Entry {
    /// The path relative to the workspace root.
    pub path: String,
    /// Whether the entry is a regular file.
    pub is_file: bool,
    /// The text of the file, where it could be read.
    pub content: Option<String>,
}

/// A workspace: its root, its `.agentsee` file and what a walk came upon.
pub struct Workspace {
    /// The root, for display.
    pub root: String,
    /// Whether the root is a directory.
    pub is_dir: bool,
    pub agentsee: AgentseeFile,
    pub entries: Vec<Entry>,
}

/// The model of an entry.
#[verifier::ext_equal]
pub struct EntryView {
    pub path: Seq<char>,
    pub is_file: bool,
    pub content: Option<Seq<char>>,
}

impl View for Entry {
    type V = EntryView;

    open spec fn view(&self) -> EntryView {
        EntryView {
            path: self.path@,
            is_file: self.is_file,
            content: match self.content {
                Some(c) => Some(c@),
                None => None,
            },
        }
    }
}

/// The models of some entries.
pub open spec fn entry_views(entries: Seq<Entry>) -> Seq<EntryView> {
    entries.map_values(|e: Entry| e@)
}

/// The model of a workspace.
#[verifier::ext_equal]
pub struct WorkspaceView {
    pub root: Seq<char>,
    pub is_dir: bool,
    /// Whether there is a `.agentsee` file.
    pub has_agentsee: bool,
    /// The text of the `.agentsee` file, where it can be read.
    pub agentsee: Option<Seq<char>>,
    pub entries: Seq<EntryView>,
}

impl View for Workspace {
    type V = WorkspaceView;

    open spec fn view(&self) -> WorkspaceView {
        WorkspaceView {
            root: self.root@,
            is_dir: self.is_dir,
            has_agentsee: !(self.agentsee is Missing),
            agentsee: match self.agentsee {
                AgentseeFile::Text(t) => Some(t@),
                _ => None,
            },
            entries: entry_views(self.entries@),
        }
    }
}

impl Workspace {
    /// Whether there is no `.agentsee` file.
    pub fn lacks_agentsee(&self) -> (r: bool)
        ensures
            r == !self@.has_agentsee,
    {
        match &self.agentsee {
            AgentseeFile::Missing => true,
            _ => false,
        }
    }
}

/// The path of an entry as the rules see it, with slashes alone.
pub open spec fn rel_path(e: EntryView) -> Seq<char> {
    text::slashed(e.path)
}

/// A file that the rules select.
#[verifier::ext_equal]
pub struct CandidateView {
    pub priority: int,
    pub path: Seq<char>,
    /// The place of the file in the walk.
    pub index: int,
}

/// The order in which files are read: by priority, then by path, then in the
/// order of the walk.
pub open spec fn read_before(a: CandidateView, b: CandidateView) -> bool {
    if a.priority != b.priority {
        a.priority < b.priority
    } else if a.path != b.path {
        order::text_at_most(a.path, b.path)
    } else {
        a.index <= b.index
    }
}

/// The files that are selected, in the order of the walk, where `priorities[i]`
/// is the priority of entry `i`.
pub open spec fn candidates(
    entries: Seq<EntryView>,
    priorities: Seq<Option<int>>,
) -> Seq<CandidateView>
    decreases entries.len(),
{
    if entries.len() == 0 {
        Seq::empty()
    } else {
        let before = candidates(entries.drop_last(), priorities.drop_last());
        if entries.last().is_file && priorities.last() is Some {
            before.push(
                CandidateView {
                    priority: priorities.last()->0,
                    path: rel_path(entries.last()),
                    index: entries.len() - 1,
                },
            )
        } else {
            before
        }
    }
}

/// The files that are selected, in the order in which they are read.
pub open spec fn ranked(
    entries: Seq<EntryView>,
    priorities: Seq<Option<int>>,
) -> Seq<CandidateView> {
    candidates(entries, priorities).sort_by(
        |a: CandidateView, b: CandidateView| read_before(a, b),
    )
}

/// The priorities that a filter gives to some entries.
pub open spec fn entry_priorities(
    filter: agentsee::AgentseeView,
    entries: Seq<EntryView>,
) -> Seq<Option<int>> {
    entries.map_values(|e: EntryView| agentsee::path_priority(filter, rel_path(e)))
}

/// Whether these may be the priorities of some entries.
pub open spec fn may_rank_all(
    filter: agentsee::AgentseeView,
    entries: Seq<EntryView>,
    priorities: Seq<Option<int>>,
) -> bool {
    &&& priorities.len() == entries.len()
    &&& forall|i: int|
        #![trigger priorities[i]]
        0 <= i < entries.len() ==> agentsee::may_rank(filter, rel_path(entries[i]), priorities[i])
}

/// The path of an entry, as the rules see it, holds no backslash.
pub proof fn rel_path_is_portable(e: EntryView)
    ensures
        matching::portable(rel_path(e)),
{
    assert forall|i: int| 0 <= i < rel_path(e).len() implies rel_path(e)[i] != '\\' by {
        assert(rel_path(e)[i] == text::slash_for_backslash(e.path[i]));
    }
}

/// The priorities that the globs decide are ones that the entries may have.
pub proof fn own_priorities_are_possible(
    filter: agentsee::AgentseeView,
    entries: Seq<EntryView>,
)
    ensures
        may_rank_all(filter, entries, entry_priorities(filter, entries)),
{
    let priorities = entry_priorities(filter, entries);
    assert forall|i: int| #![trigger priorities[i]] 0 <= i < entries.len() implies
        agentsee::may_rank(filter, rel_path(entries[i]), priorities[i]) by {
        agentsee::own_priority_is_possible(filter, rel_path(entries[i]));
    }
}

/// Where no pattern holds a backslash, the entries have one list of priorities.
pub proof fn portable_priorities_are_one(
    filter: agentsee::AgentseeView,
    entries: Seq<EntryView>,
    priorities: Seq<Option<int>>,
)
    requires
        filter.portable(),
    ensures
        may_rank_all(filter, entries, priorities) <==> priorities == entry_priorities(
            filter,
            entries,
        ),
{
    own_priorities_are_possible(filter, entries);
    if may_rank_all(filter, entries, priorities) {
        assert forall|i: int| 0 <= i < entries.len() implies #[trigger] priorities[i]
            == entry_priorities(filter, entries)[i] by {
            rel_path_is_portable(entries[i]);
            agentsee::portable_priority_is_one(filter, rel_path(entries[i]), priorities[i]);
        }
        assert(priorities =~= entry_priorities(filter, entries));
    }
}

/// The order in which files are read is total.
pub proof fn read_before_is_total()
    ensures
        vstd::relations::total_ordering(|a: CandidateView, b: CandidateView| read_before(a, b)),
{
    let leq = |a: CandidateView, b: CandidateView| read_before(a, b);
    assert forall|a: CandidateView, b: CandidateView| #[trigger]
        leq(a, b) && #[trigger] leq(b, a) implies a == b by {
        if a.priority == b.priority && a.path != b.path {
            order::text_order_antisymmetric(a.path, b.path);
        }
        assert(a =~= b);
    }
    assert forall|a: CandidateView, b: CandidateView, c: CandidateView| #[trigger]
        leq(a, b) && #[trigger] leq(b, c) implies leq(a, c) by {
        lemma_read_before_transitive(a, b, c);
    }
    assert forall|a: CandidateView, b: CandidateView| #[trigger] leq(a, b) || #[trigger] leq(
        b,
        a,
    ) by {
        order::text_order_total(a.path, b.path);
    }
}

proof fn lemma_read_before_transitive(a: CandidateView, b: CandidateView, c: CandidateView)
    requires
        read_before(a, b),
        read_before(b, c),
    ensures
        read_before(a, c),
{
    if a.priority == b.priority && b.priority == c.priority && a.path != b.path && b.path
        != c.path {
        order::text_order_transitive(a.path, b.path, c.path);
        if a.path == c.path {
            order::text_order_antisymmetric(a.path, b.path);
        }
    }
}

/// A file that the rules select.
pub struct Candidate {
    pub priority: usize,
    pub path: String,
    /// The place of the file among the entries of the workspace.
    pub index: usize,
}

impl View for Candidate {
    type V = CandidateView;

    open spec fn view(&self) -> CandidateView {
        CandidateView {
            priority: self.priority as int,
            path: self.path@,
            index: self.index as int,
        }
    }
}

/// The models of some candidates.
pub open spec fn candidate_views(s: Seq<Candidate>) -> Seq<CandidateView> {
    s.map_values(|c: Candidate| c@)
}

impl Ranked for Candidate {
    open spec fn at_most(self, other: Self) -> bool {
        read_before(self@, other@)
    }

    proof fn rank_total(a: Self, b: Self) {
        order::text_order_total(a.path@, b.path@);
    }

    proof fn rank_transitive(a: Self, b: Self, c: Self) {
        lemma_read_before_transitive(a@, b@, c@);
    }

    fn comes_first(&self, other: &Self) -> (r: bool) {
        if self.priority != other.priority {
            return self.priority < other.priority;
        }
        let forward = text_le(self.path.as_str(), other.path.as_str());
        let backward = text_le(other.path.as_str(), self.path.as_str());
        proof {
            order::text_order_total(self.path@, other.path@);
            if forward && backward {
                order::text_order_antisymmetric(self.path@, other.path@);
            }
            order::text_order_total(self.path@, self.path@);
        }
        if forward && backward {
            self.index <= other.index
        } else {
            forward
        }
    }
}

/// Puts the selected files in the order in which they are read.
pub fn rank_candidates(found: Vec<Candidate>) -> (r: Vec<Candidate>)
    ensures
        candidate_views(r@) == candidate_views(found@).sort_by(
            |a: CandidateView, b: CandidateView| read_before(a, b),
        ),
        r@.to_multiset() == found@.to_multiset(),
{
    let r = sort(found);
    proof {
        let leq = |a: CandidateView, b: CandidateView| read_before(a, b);
        let f = |c: Candidate| c@;
        read_before_is_total();
        order::lemma_same_values_map(r@, found@, f);
        candidate_views(found@).lemma_sort_by_ensures(leq);
        assert forall|i: int, j: int| 0 <= i < j < r@.len() implies #[trigger] leq(
            candidate_views(r@)[i],
            candidate_views(r@)[j],
        ) by {
            assert(r@[i].at_most(r@[j]));
        }
        vstd::seq_lib::lemma_sorted_unique(
            candidate_views(r@),
            candidate_views(found@).sort_by(leq),
            leq,
        );
    }
    r
}

/// The selected files of some entries, in the order in which they are read.
///
/// Which paths the patterns with a backslash match depends on the platform; the
/// order is the same function of the priorities for every outcome.
pub fn select_files(filter: &Agentsee, entries: &Vec<Entry>) -> (r: Vec<Candidate>)
    requires
        filter.wf(),
    ensures
        exists|priorities: Seq<Option<int>>| #[trigger]
            may_rank_all(filter@, entry_views(entries@), priorities) && candidate_views(r@)
                == ranked(entry_views(entries@), priorities),
        filter@.portable() ==> candidate_views(r@) == ranked(
            entry_views(entries@),
            entry_priorities(filter@, entry_views(entries@)),
        ),
        forall|k: int| 0 <= k < r@.len() ==> (#[trigger] r@[k]).index < entries@.len(),
{
    let ghost all = entry_views(entries@);
    let ghost mut priorities: Seq<Option<int>> = Seq::empty();
    let mut found: Vec<Candidate> = Vec::new();
    let mut i: usize = 0;
    assert(all.take(0) =~= Seq::empty());
    assert(candidate_views(found@) =~= candidates(all.take(0), priorities));
    while i < entries.len()
        invariant
            filter.wf(),
            all == entry_views(entries@),
            i <= entries@.len(),
            priorities.len() == i,
            forall|k: int|
                #![trigger priorities[k]]
                0 <= k < i ==> agentsee::may_rank(filter@, rel_path(all[k]), priorities[k]),
            candidate_views(found@) == candidates(all.take(i as int), priorities),
            forall|k: int| 0 <= k < found@.len() ==> (#[trigger] found@[k]).index < entries@.len(),
        decreases entries@.len() - i,
    {
        let entry = &entries[i];
        let ghost priorities0 = priorities;
        let ghost found0 = candidate_views(found@);
        proof {
            assert(all[i as int] == entry@);
            assert(all.take(i + 1).drop_last() =~= all.take(i as int));
            assert(all.take(i + 1).last() == entry@);
        }
        let path = to_slashes(entry.path.as_str());
        let priority = filter.priority(path.as_str());
        proof {
            priorities = priorities.push(agentsee::as_position(priority));
            assert(priorities.drop_last() =~= priorities0);
        }
        if entry.is_file {
            if let Some(p) = priority {
                let c = Candidate { priority: p, path, index: i };
                found.push(c);
                assert(candidate_views(found@) =~= found0.push(c@));
            }
        }
        i += 1;
    }
    assert(all.take(all.len() as int) =~= all);
    let r = rank_candidates(found);
    proof {
        assert(may_rank_all(filter@, all, priorities));
        assert(candidate_views(r@) == ranked(all, priorities));
        if filter@.portable() {
            portable_priorities_are_one(filter@, all, priorities);
        }
        assert forall|k: int| 0 <= k < r@.len() implies (#[trigger] r@[k]).index
            < entries@.len() by {
            order::lemma_value_of_same(r@, found@, k);
        }
    }
    r
}

// ---------------------------------------------------------------------------
// Laws
// ---------------------------------------------------------------------------

/// Whether entry `i` is selected: it is a file and has a priority.
pub open spec fn selected(entries: Seq<EntryView>, priorities: Seq<Option<int>>, i: int) -> bool {
    entries[i].is_file && priorities[i] is Some
}

/// Entry `i` as a selected file.
pub open spec fn candidate_at(
    entries: Seq<EntryView>,
    priorities: Seq<Option<int>>,
    i: int,
) -> CandidateView {
    CandidateView { priority: priorities[i]->0, path: rel_path(entries[i]), index: i }
}

proof fn lemma_candidates(entries: Seq<EntryView>, priorities: Seq<Option<int>>)
    requires
        priorities.len() == entries.len(),
    ensures
        ({
            let found = candidates(entries, priorities);
            &&& forall|k: int|
                0 <= k < found.len() ==> {
                    &&& 0 <= (#[trigger] found[k]).index < entries.len()
                    &&& selected(entries, priorities, found[k].index)
                    &&& found[k] == candidate_at(entries, priorities, found[k].index)
                }
            &&& forall|k: int, l: int|
                #![trigger found[k], found[l]]
                0 <= k < l < found.len() ==> found[k].index < found[l].index
            &&& forall|i: int|
                0 <= i < entries.len() && selected(entries, priorities, i) ==> found.contains(
                    #[trigger] candidate_at(entries, priorities, i),
                )
        }),
    decreases entries.len(),
{
    if entries.len() > 0 {
        let (e, p) = (entries.drop_last(), priorities.drop_last());
        let n = entries.len() - 1;
        lemma_candidates(e, p);
        let before = candidates(e, p);
        let found = candidates(entries, priorities);
        assert forall|i: int| 0 <= i < n implies selected(e, p, i) == selected(
            entries,
            priorities,
            i,
        ) && #[trigger] candidate_at(e, p, i) == candidate_at(entries, priorities, i) by {
            assert(e[i] == entries[i] && p[i] == priorities[i]);
        }
        assert forall|k: int| 0 <= k < found.len() implies {
            &&& 0 <= (#[trigger] found[k]).index < entries.len()
            &&& selected(entries, priorities, found[k].index)
            &&& found[k] == candidate_at(entries, priorities, found[k].index)
        } by {
            if k < before.len() {
                assert(found[k] == before[k]);
                assert(before[k] == candidate_at(e, p, before[k].index));
            }
        }
        assert forall|k: int, l: int|
            #![trigger found[k], found[l]]
            0 <= k < l < found.len() implies found[k].index < found[l].index by {
            assert(found[k] == before[k]);
            if l < before.len() {
                assert(found[l] == before[l]);
            }
        }
        assert forall|i: int|
            0 <= i < entries.len() && selected(entries, priorities, i) implies found.contains(
            #[trigger] candidate_at(entries, priorities, i),
        ) by {
            if i < n {
                assert(candidate_at(e, p, i) == candidate_at(entries, priorities, i));
                assert(before.contains(candidate_at(e, p, i)));
                let k = choose|k: int|
                    0 <= k < before.len() && before[k] == candidate_at(e, p, i);
                assert(found[k] == before[k]);
            } else {
                assert(found[found.len() - 1] == candidate_at(entries, priorities, i));
            }
        }
    }
}

/// The files that are read are the selected ones, each of them once.
pub proof fn selected_files_are_read_once(entries: Seq<EntryView>, priorities: Seq<Option<int>>)
    requires
        priorities.len() == entries.len(),
    ensures
        ({
            let chosen = ranked(entries, priorities);
            &&& forall|k: int|
                0 <= k < chosen.len() ==> {
                    &&& 0 <= (#[trigger] chosen[k]).index < entries.len()
                    &&& selected(entries, priorities, chosen[k].index)
                    &&& chosen[k] == candidate_at(entries, priorities, chosen[k].index)
                }
            &&& forall|i: int|
                0 <= i < entries.len() && selected(entries, priorities, i) ==> chosen.contains(
                    #[trigger] candidate_at(entries, priorities, i),
                )
            &&& forall|k: int, l: int|
                #![trigger chosen[k], chosen[l]]
                0 <= k < l < chosen.len() ==> chosen[k].index != chosen[l].index
        }),
{
    let leq = |a: CandidateView, b: CandidateView| read_before(a, b);
    let found = candidates(entries, priorities);
    let chosen = ranked(entries, priorities);
    lemma_candidates(entries, priorities);
    read_before_is_total();
    found.lemma_sort_by_ensures(leq);
    assert forall|k: int| 0 <= k < chosen.len() implies {
        &&& 0 <= (#[trigger] chosen[k]).index < entries.len()
        &&& selected(entries, priorities, chosen[k].index)
        &&& chosen[k] == candidate_at(entries, priorities, chosen[k].index)
    } by {
        order::lemma_value_of_same(chosen, found, k);
    }
    assert forall|i: int|
        0 <= i < entries.len() && selected(entries, priorities, i) implies chosen.contains(
        #[trigger] candidate_at(entries, priorities, i),
    ) by {
        let c = candidate_at(entries, priorities, i);
        assert(found.contains(c));
        let k = choose|k: int| 0 <= k < found.len() && found[k] == c;
        order::lemma_value_of_same(found, chosen, k);
    }
    assert(found.no_duplicates());
    found.lemma_multiset_has_no_duplicates();
    chosen.lemma_multiset_has_no_duplicates_conv();
    assert forall|k: int, l: int|
        #![trigger chosen[k], chosen[l]]
        0 <= k < l < chosen.len() implies chosen[k].index != chosen[l].index by {
        assert(chosen[k] == candidate_at(entries, priorities, chosen[k].index));
        assert(chosen[l] == candidate_at(entries, priorities, chosen[l].index));
    }
}

/// Files are read by priority, and files of one priority by path.
pub proof fn files_are_read_by_priority(entries: Seq<EntryView>, priorities: Seq<Option<int>>)
    ensures
        ({
            let chosen = ranked(entries, priorities);
            forall|k: int, l: int|
                #![trigger chosen[k], chosen[l]]
                0 <= k < l < chosen.len() ==> {
                    ||| chosen[k].priority < chosen[l].priority
                    ||| chosen[k].priority == chosen[l].priority && order::text_at_most(
                        chosen[k].path,
                        chosen[l].path,
                    )
                }
        }),
{
    let leq = |a: CandidateView, b: CandidateView| read_before(a, b);
    let chosen = ranked(entries, priorities);
    read_before_is_total();
    candidates(entries, priorities).lemma_sort_by_ensures(leq);
    assert forall|k: int, l: int|
        #![trigger chosen[k], chosen[l]]
        0 <= k < l < chosen.len() implies {
        ||| chosen[k].priority < chosen[l].priority
        ||| chosen[k].priority == chosen[l].priority && order::text_at_most(
            chosen[k].path,
            chosen[l].path,
        )
    } by {
        assert(leq(chosen[k], chosen[l]));
        order::text_order_total(chosen[k].path, chosen[k].path);
    }
}

/// The path of an entry is that of the walk, character by character, but for the
/// backslashes, which turn into slashes.
pub proof fn path_is_that_of_the_walk(e: EntryView, i: int)
    requires
        0 <= i < e.path.len(),
    ensures
        rel_path(e).len() == e.path.len(),
        rel_path(e)[i] == if e.path[i] == '\\' {
            '/'
        } else {
            e.path[i]
        },
{
}

/// The priority of an entry is the one that the filter gives to its path.
pub proof fn priority_of_an_entry_is_that_of_its_path(
    filter: agentsee::AgentseeView,
    entries: Seq<EntryView>,
    i: int,
)
    requires
        0 <= i < entries.len(),
    ensures
        entry_priorities(filter, entries).len() == entries.len(),
        entry_priorities(filter, entries)[i] == agentsee::path_priority(
            filter,
            rel_path(entries[i]),
        ),
{
}

/// Every priority that an entry may have is one that its path may have.
pub proof fn possible_priority_is_that_of_the_path(
    filter: agentsee::AgentseeView,
    entries: Seq<EntryView>,
    priorities: Seq<Option<int>>,
    i: int,
)
    requires
        may_rank_all(filter, entries, priorities),
        0 <= i < entries.len(),
    ensures
        priorities.len() == entries.len(),
        agentsee::may_rank(filter, rel_path(entries[i]), priorities[i]),
{
    assert(agentsee::may_rank(filter, rel_path(entries[i]), priorities[i]));
}

/// The files that are read are exactly the regular files with a priority, each
/// of them once and under its own path. They come by priority, then by path,
/// and files of one path in the order of the walk.
pub proof fn reading_order(entries: Seq<EntryView>, priorities: Seq<Option<int>>)
    requires
        priorities.len() == entries.len(),
    ensures
        ({
            let chosen = ranked(entries, priorities);
            &&& forall|k: int|
                #![trigger chosen[k]]
                0 <= k < chosen.len() ==> {
                    &&& 0 <= chosen[k].index < entries.len()
                    &&& entries[chosen[k].index].is_file
                    &&& priorities[chosen[k].index] == Some(chosen[k].priority)
                    &&& chosen[k].path == rel_path(entries[chosen[k].index])
                }
            &&& forall|i: int|
                #![trigger entries[i]]
                0 <= i < entries.len() && entries[i].is_file && priorities[i] is Some ==> exists|
                    k: int,
                |
                    0 <= k < chosen.len() && (#[trigger] chosen[k]).index == i
            &&& forall|k: int, l: int|
                #![trigger chosen[k], chosen[l]]
                0 <= k < l < chosen.len() ==> {
                    ||| chosen[k].priority < chosen[l].priority
                    ||| {
                        &&& chosen[k].priority == chosen[l].priority
                        &&& order::text_at_most(chosen[k].path, chosen[l].path)
                        &&& chosen[k].path == chosen[l].path ==> chosen[k].index < chosen[l].index
                    }
                }
        }),
{
    let leq = |a: CandidateView, b: CandidateView| read_before(a, b);
    let chosen = ranked(entries, priorities);
    selected_files_are_read_once(entries, priorities);
    files_are_read_by_priority(entries, priorities);
    read_before_is_total();
    candidates(entries, priorities).lemma_sort_by_ensures(leq);
    assert forall|i: int|
        #![trigger entries[i]]
        0 <= i < entries.len() && entries[i].is_file && priorities[i] is Some implies exists|k: int|
        0 <= k < chosen.len() && (#[trigger] chosen[k]).index == i by {
        assert(chosen.contains(candidate_at(entries, priorities, i)));
        let k = choose|k: int|
            0 <= k < chosen.len() && chosen[k] == candidate_at(entries, priorities, i);
        assert(chosen[k].index == i);
    }
    assert forall|k: int, l: int|
        #![trigger chosen[k], chosen[l]]
        0 <= k < l < chosen.len() implies {
        ||| chosen[k].priority < chosen[l].priority
        ||| {
            &&& chosen[k].priority == chosen[l].priority
            &&& order::text_at_most(chosen[k].path, chosen[l].path)
            &&& chosen[k].path == chosen[l].path ==> chosen[k].index < chosen[l].index
        }
    } by {
        assert(leq(chosen[k], chosen[l]));
    }
}

/// The model of a workspace shows all of it.
pub proof fn model_shows_the_workspace(ws: Workspace, i: int)
    requires
        0 <= i < ws.entries@.len(),
    ensures
        ws@.root == ws.root@,
        ws@.is_dir == ws.is_dir,
        ws@.has_agentsee <==> !(ws.agentsee is Missing),
        ws@.agentsee is Some <==> ws.agentsee is Text,
        ws.agentsee matches AgentseeFile::Text(t) ==> ws@.agentsee == Some(t@),
        ws@.entries.len() == ws.entries@.len(),
        ws@.entries[i].path == ws.entries@[i].path@,
        ws@.entries[i].is_file == ws.entries@[i].is_file,
        ws@.entries[i].content is Some <==> ws.entries@[i].content is Some,
        ws.entries@[i].content matches Some(c) ==> ws@.entries[i].content == Some(c@),
{
}

} // verus!
