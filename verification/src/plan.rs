//! The plan of an injection: which files go in, within a budget.

use vstd::prelude::*;
use vstd::string::*;

use crate::agentsee;
use crate::agentsee::Agentsee;
use crate::order;
use crate::text;
use crate::text::{byte_len, is_blank};
use crate::workspace;
use crate::workspace::{select_files, AgentseeFile, Workspace};

verus! {

/// What goes into the conversation.
#[verifier::ext_equal]
pub struct PlanView {
    /// Path and content of each file, in the order in which they are read.
    pub files: Seq<(Seq<char>, Seq<char>)>,
    /// The size of the contents, in bytes.
    pub total_bytes: int,
    /// The number of files that did not fit in the budget.
    pub skipped: int,
}

/// The plan of nothing.
pub open spec fn empty_plan() -> PlanView {
    PlanView { files: Seq::empty(), total_bytes: 0, skipped: 0 }
}

/// The tokens of a text: one for every four characters, rounded up.
pub open spec fn token_estimate(content: Seq<char>) -> nat {
    (content.len() + 3) / 4
}

/// The plan after one more file was read. A file that could not be read or
/// that is blank changes nothing, and one that does not fit is skipped.
pub open spec fn offered(
    plan: PlanView,
    path: Seq<char>,
    content: Option<Seq<char>>,
    max_bytes: int,
) -> PlanView {
    match content {
        None => plan,
        Some(c) => if text::blank(c) {
            plan
        } else if plan.total_bytes + text::byte_size(c) > max_bytes {
            PlanView { skipped: plan.skipped + 1, ..plan }
        } else {
            PlanView {
                files: plan.files.push((path, c)),
                total_bytes: plan.total_bytes + text::byte_size(c),
                skipped: plan.skipped,
            }
        },
    }
}

/// The plan after some files were read, one after the other.
pub open spec fn plan_of(
    reads: Seq<(Seq<char>, Option<Seq<char>>)>,
    max_bytes: int,
) -> PlanView
    decreases reads.len(),
{
    if reads.len() == 0 {
        empty_plan()
    } else {
        offered(
            plan_of(reads.drop_last(), max_bytes),
            reads.last().0,
            reads.last().1,
            max_bytes,
        )
    }
}

/// What is read of the selected files.
pub open spec fn reads(
    chosen: Seq<workspace::CandidateView>,
    entries: Seq<workspace::EntryView>,
) -> Seq<(Seq<char>, Option<Seq<char>>)> {
    chosen.map_values(
        |c: workspace::CandidateView| (c.path, entries[c.index].content),
    )
}

/// Whether a workspace has a filter: it is a directory with a `.agentsee` file
/// that can be read and is not blank.
pub open spec fn has_filter(ws: workspace::WorkspaceView) -> bool {
    ws.is_dir && (ws.agentsee matches Some(t) && !text::blank(t))
}

/// The plan for a workspace, where `priorities[i]` is the priority of entry
/// `i`. There is none without a filter or without a selected file.
pub open spec fn collected(
    ws: workspace::WorkspaceView,
    priorities: Seq<Option<int>>,
    max_bytes: int,
) -> Option<PlanView> {
    let chosen = workspace::ranked(ws.entries, priorities);
    if has_filter(ws) && chosen.len() > 0 {
        Some(plan_of(reads(chosen, ws.entries), max_bytes))
    } else {
        None
    }
}

/// The rules of a workspace.
pub open spec fn workspace_rules(ws: workspace::WorkspaceView) -> Seq<agentsee::RuleLine> {
    match ws.agentsee {
        Some(t) => agentsee::rule_lines(t),
        None => Seq::empty(),
    }
}

/// The priorities that the rules of a workspace give to its entries.
pub open spec fn workspace_priorities(ws: workspace::WorkspaceView) -> Seq<Option<int>> {
    workspace::entry_priorities(agentsee::filter_of(workspace_rules(ws)), ws.entries)
}

/// Whether these may be the priorities of the entries of a workspace: those of
/// a filter that its rules may stand for.
pub open spec fn possible_priorities(
    ws: workspace::WorkspaceView,
    priorities: Seq<Option<int>>,
) -> bool {
    exists|filter: agentsee::AgentseeView| #[trigger]
        agentsee::may_filter(workspace_rules(ws), filter) && workspace::may_rank_all(
            filter,
            ws.entries,
            priorities,
        )
}

/// The priorities that the globs decide are ones that the entries may have.
pub proof fn own_priorities_are_possible(ws: workspace::WorkspaceView)
    ensures
        possible_priorities(ws, workspace_priorities(ws)),
{
    let filter = agentsee::filter_of(workspace_rules(ws));
    agentsee::own_filter_is_possible(workspace_rules(ws));
    workspace::own_priorities_are_possible(filter, ws.entries);
    assert(agentsee::may_filter(workspace_rules(ws), filter));
}

/// Where no pattern holds a backslash, the entries have one list of priorities,
/// on every platform.
pub proof fn portable_priorities_are_one(
    ws: workspace::WorkspaceView,
    priorities: Seq<Option<int>>,
)
    requires
        agentsee::all_portable(workspace_rules(ws)),
    ensures
        possible_priorities(ws, priorities) <==> priorities == workspace_priorities(ws),
{
    own_priorities_are_possible(ws);
    if possible_priorities(ws, priorities) {
        let filter = choose|filter: agentsee::AgentseeView| #[trigger]
            agentsee::may_filter(workspace_rules(ws), filter) && workspace::may_rank_all(
                filter,
                ws.entries,
                priorities,
            );
        agentsee::portable_filter_is_one(workspace_rules(ws), filter);
        workspace::portable_priorities_are_one(filter, ws.entries, priorities);
    }
}

/// The files of an injection.
pub struct InjectPlan {
    /// Path and content of each file, in the order in which they are read.
    pub files: Vec<(String, String)>,
    /// The number of files.
    pub file_count: usize,
    /// The size of the contents, in bytes.
    pub total_bytes: usize,
    /// The number of files that did not fit in the budget.
    pub skipped_count: usize,
    /// Path and token estimate of each file.
    pub file_tokens: Vec<(String, usize)>,
}

/// The texts of some pairs of strings.
pub open spec fn pair_texts(v: Seq<(String, String)>) -> Seq<(Seq<char>, Seq<char>)> {
    v.map_values(|p: (String, String)| (p.0@, p.1@))
}

impl View for InjectPlan {
    type V = PlanView;

    open spec fn view(&self) -> PlanView {
        PlanView {
            files: pair_texts(self.files@),
            total_bytes: self.total_bytes as int,
            skipped: self.skipped_count as int,
        }
    }
}

/// The model of an optional plan.
pub open spec fn plan_view(p: Option<InjectPlan>) -> Option<PlanView> {
    match p {
        Some(plan) => Some(plan@),
        None => None,
    }
}

impl InjectPlan {
    /// The count and the token estimates are those of the files.
    pub open spec fn wf(self) -> bool {
        &&& self.file_count == self.files@.len()
        &&& self.file_tokens@.len() == self.files@.len()
        &&& forall|i: int|
            0 <= i < self.files@.len() ==> {
                &&& (#[trigger] self.file_tokens@[i]).0@ == self.files@[i].0@
                &&& self.file_tokens@[i].1 == token_estimate(self.files@[i].1@)
            }
    }

    /// The plan of nothing.
    pub fn empty() -> (plan: InjectPlan)
        ensures
            plan.wf(),
            plan@ == empty_plan(),
    {
        let plan = InjectPlan {
            files: Vec::new(),
            file_count: 0,
            total_bytes: 0,
            skipped_count: 0,
            file_tokens: Vec::new(),
        };
        assert(plan@ =~= empty_plan());
        plan
    }

    /// Takes in one more file that was read, if it fits in the budget.
    pub fn offer(&mut self, path: &str, content: Option<&String>, max_bytes: usize)
        requires
            old(self).wf(),
            old(self).total_bytes <= max_bytes,
            old(self).skipped_count < usize::MAX,
        ensures
            final(self).wf(),
            final(self).total_bytes <= max_bytes,
            final(self).skipped_count <= old(self).skipped_count + 1,
            final(self)@ == offered(
                old(self)@,
                path@,
                match content {
                    Some(c) => Some(c@),
                    None => None,
                },
                max_bytes as int,
            ),
    {
        match content {
            None => {},
            Some(c) => {
                if is_blank(c.as_str()) {
                    return;
                }
                let size: usize = byte_len(c.as_str());
                if size > max_bytes - self.total_bytes {
                    self.skipped_count += 1;
                    return;
                }
                let n: usize = c.as_str().unicode_len();
                let tokens: usize = n / 4 + if n % 4 == 0 {
                    0usize
                } else {
                    1usize
                };
                self.file_tokens.push((path.to_owned(), tokens));
                self.total_bytes += size;
                self.files.push((path.to_owned(), c.clone()));
                self.file_count = self.files.len();
                assert(self@ =~= offered(old(self)@, path@, Some(c@), max_bytes as int));
            },
        }
    }
}

/// The plan of the files that the `.agentsee` file of a workspace selects.
///
/// The files are read in the order of their priority, so that a tight budget
/// leaves out the less important ones. Which paths the patterns with a
/// backslash match depends on the platform; the plan is the same function of
/// the priorities for every outcome.
pub fn collect_project_files(workspace: &Workspace, max_bytes: usize) -> (r: Option<InjectPlan>)
    ensures
        r matches Some(plan) ==> plan.wf(),
        exists|priorities: Seq<Option<int>>| #[trigger]
            possible_priorities(workspace@, priorities) && plan_view(r) == collected(
                workspace@,
                priorities,
                max_bytes as int,
            ),
        agentsee::all_portable(workspace_rules(workspace@)) ==> plan_view(r) == collected(
            workspace@,
            workspace_priorities(workspace@),
            max_bytes as int,
        ),
{
    let ghost ws = workspace@;
    proof {
        own_priorities_are_possible(ws);
    }
    if !workspace.is_dir {
        return None;
    }
    let file = match &workspace.agentsee {
        AgentseeFile::Text(t) => Some(t.as_str()),
        _ => None,
    };
    let filter = match Agentsee::load(file) {
        None => {
            return None;
        },
        Some(filter) => filter,
    };
    let chosen = select_files(&filter, &workspace.entries);
    let ghost priorities = choose|priorities: Seq<Option<int>>| #[trigger]
        workspace::may_rank_all(filter@, ws.entries, priorities) && workspace::candidate_views(
            chosen@,
        ) == workspace::ranked(ws.entries, priorities);
    proof {
        assert(workspace::may_rank_all(filter@, ws.entries, priorities));
        assert(agentsee::may_filter(workspace_rules(ws), filter@));
        assert(possible_priorities(ws, priorities));
        if agentsee::all_portable(workspace_rules(ws)) {
            portable_priorities_are_one(ws, priorities);
        }
        assert(workspace::candidate_views(chosen@).len() == chosen@.len());
    }
    if chosen.len() == 0 {
        return None;
    }
    let ghost all = reads(workspace::candidate_views(chosen@), ws.entries);
    let mut plan = InjectPlan::empty();
    let mut i: usize = 0;
    assert(all.take(0) =~= Seq::empty());
    while i < chosen.len()
        invariant
            ws == workspace@,
            all == reads(workspace::candidate_views(chosen@), ws.entries),
            forall|k: int|
                0 <= k < chosen@.len() ==> (#[trigger] chosen@[k]).index
                    < workspace.entries@.len(),
            i <= chosen@.len(),
            plan.wf(),
            plan.total_bytes <= max_bytes,
            plan.skipped_count <= i,
            plan@ == plan_of(all.take(i as int), max_bytes as int),
        decreases chosen@.len() - i,
    {
        let c = &chosen[i];
        proof {
            assert(all.take(i + 1).drop_last() =~= all.take(i as int));
            assert(all.take(i + 1).last() == all[i as int]);
            assert(all[i as int].0 == c.path@);
            assert(ws.entries[c.index as int] == workspace.entries@[c.index as int]@);
        }
        plan.offer(c.path.as_str(), workspace.entries[c.index].content.as_ref(), max_bytes);
        i += 1;
    }
    assert(all.take(all.len() as int) =~= all);
    Some(plan)
}

// ---------------------------------------------------------------------------
// Laws
// ---------------------------------------------------------------------------

/// The size of the contents of some files, in bytes.
pub open spec fn files_size(files: Seq<(Seq<char>, Seq<char>)>) -> int
    decreases files.len(),
{
    if files.len() == 0 {
        0
    } else {
        files_size(files.drop_last()) + text::byte_size(files.last().1)
    }
}

/// A plan stays within its budget, and its size is that of its files.
pub proof fn plan_within_budget(reads: Seq<(Seq<char>, Option<Seq<char>>)>, max_bytes: int)
    requires
        max_bytes >= 0,
    ensures
        plan_of(reads, max_bytes).total_bytes <= max_bytes,
        plan_of(reads, max_bytes).total_bytes == files_size(plan_of(reads, max_bytes).files),
    decreases reads.len(),
{
    lemma_plan_size(reads, max_bytes);
    if reads.len() > 0 {
        plan_within_budget(reads.drop_last(), max_bytes);
    }
}

/// A file that is read later never takes the place of an earlier one: the plan
/// of the first files is the beginning of the plan of all of them.
pub proof fn earlier_files_come_first(
    reads: Seq<(Seq<char>, Option<Seq<char>>)>,
    n: int,
    max_bytes: int,
)
    requires
        0 <= n <= reads.len(),
    ensures
        plan_of(reads.take(n), max_bytes).files.is_prefix_of(plan_of(reads, max_bytes).files),
    decreases reads.len() - n,
{
    if n == reads.len() {
        assert(reads.take(n) =~= reads);
    } else {
        earlier_files_come_first(reads, n + 1, max_bytes);
        assert(reads.take(n + 1).drop_last() =~= reads.take(n));
        let a = plan_of(reads.take(n), max_bytes).files;
        let b = plan_of(reads.take(n + 1), max_bytes).files;
        let c = plan_of(reads, max_bytes).files;
        assert(b == a || b.drop_last() =~= a);
        assert forall|k: int| 0 <= k < a.len() implies a[k] == c[k] by {
            assert(a[k] == b[k]);
            assert(b[k] == c.subrange(0, b.len() as int)[k]);
        }
        assert(a =~= c.subrange(0, a.len() as int));
    }
}

/// Every file of a plan was read, is not blank, and stands in the plan in the
/// order in which the files were read.
pub proof fn planned_files_were_read(
    reads: Seq<(Seq<char>, Option<Seq<char>>)>,
    max_bytes: int,
) -> (sources: Seq<int>)
    ensures
        sources.len() == plan_of(reads, max_bytes).files.len(),
        forall|k: int|
            0 <= k < sources.len() ==> {
                let file = plan_of(reads, max_bytes).files[k];
                &&& 0 <= #[trigger] sources[k] < reads.len()
                &&& reads[sources[k]] == (file.0, Some(file.1))
                &&& !text::blank(file.1)
            },
        forall|k: int, l: int|
            #![trigger sources[k], sources[l]]
            0 <= k < l < sources.len() ==> sources[k] < sources[l],
    decreases reads.len(),
{
    if reads.len() == 0 {
        Seq::empty()
    } else {
        let fewer = reads.drop_last();
        let before = planned_files_were_read(fewer, max_bytes);
        let files0 = plan_of(fewer, max_bytes).files;
        let files = plan_of(reads, max_bytes).files;
        let r = if files.len() == files0.len() {
            before
        } else {
            before.push(reads.len() - 1)
        };
        assert forall|k: int| 0 <= k < r.len() implies {
            let file = files[k];
            &&& 0 <= #[trigger] r[k] < reads.len()
            &&& reads[r[k]] == (file.0, Some(file.1))
            &&& !text::blank(file.1)
        } by {
            if k < before.len() {
                assert(before[k] == r[k]);
                assert(files[k] == files0[k]);
                assert(fewer[before[k]] == reads[before[k]]);
            }
        }
        assert forall|k: int, l: int|
            #![trigger r[k], r[l]]
            0 <= k < l < r.len() implies r[k] < r[l] by {
            if l < before.len() {
                assert(before[k] < before[l]);
            } else {
                assert(before[k] < fewer.len());
            }
        }
        r
    }
}

/// The files among some reads that have something to inject: those that could be
/// read and are not blank.
pub open spec fn readable(reads: Seq<(Seq<char>, Option<Seq<char>>)>) -> Seq<
    (Seq<char>, Seq<char>),
>
    decreases reads.len(),
{
    if reads.len() == 0 {
        Seq::empty()
    } else {
        let before = readable(reads.drop_last());
        match reads.last().1 {
            Some(c) => if text::blank(c) {
                before
            } else {
                before.push((reads.last().0, c))
            },
            None => before,
        }
    }
}

/// Every file with something to inject is in the plan or counts as skipped.
pub proof fn every_file_is_planned_or_skipped(
    reads: Seq<(Seq<char>, Option<Seq<char>>)>,
    max_bytes: int,
)
    ensures
        plan_of(reads, max_bytes).files.len() + plan_of(reads, max_bytes).skipped == readable(
            reads,
        ).len(),
    decreases reads.len(),
{
    if reads.len() > 0 {
        every_file_is_planned_or_skipped(reads.drop_last(), max_bytes);
    }
}

/// A budget that holds all files with something to inject skips none of them.
pub proof fn large_budget_skips_nothing(
    reads: Seq<(Seq<char>, Option<Seq<char>>)>,
    max_bytes: int,
)
    requires
        files_size(readable(reads)) <= max_bytes,
    ensures
        plan_of(reads, max_bytes).files == readable(reads),
        plan_of(reads, max_bytes).skipped == 0,
    decreases reads.len(),
{
    if reads.len() > 0 {
        let fewer = reads.drop_last();
        if let Some(c) = reads.last().1 {
            if !text::blank(c) {
                assert(readable(reads).drop_last() =~= readable(fewer));
            }
        }
        large_budget_skips_nothing(fewer, max_bytes);
        lemma_plan_size(fewer, max_bytes);
    }
}

proof fn lemma_plan_size(reads: Seq<(Seq<char>, Option<Seq<char>>)>, max_bytes: int)
    ensures
        plan_of(reads, max_bytes).total_bytes == files_size(plan_of(reads, max_bytes).files),
    decreases reads.len(),
{
    if reads.len() > 0 {
        lemma_plan_size(reads.drop_last(), max_bytes);
        let before = plan_of(reads.drop_last(), max_bytes);
        if let Some(c) = reads.last().1 {
            assert(before.files.push((reads.last().0, c)).drop_last() =~= before.files);
        }
    }
}

/// Nothing is injected that the rules do not select: every file of a plan is the
/// content of a selected entry, under the path of that entry.
pub proof fn planned_files_are_selected(
    ws: workspace::WorkspaceView,
    priorities: Seq<Option<int>>,
    max_bytes: int,
    k: int,
)
    requires
        priorities.len() == ws.entries.len(),
        collected(ws, priorities, max_bytes) is Some,
        0 <= k < collected(ws, priorities, max_bytes)->0.files.len(),
    ensures
        ({
            let file = collected(ws, priorities, max_bytes)->0.files[k];
            exists|i: int|
                #![trigger ws.entries[i]]
                {
                    &&& 0 <= i < ws.entries.len()
                    &&& workspace::selected(ws.entries, priorities, i)
                    &&& workspace::rel_path(ws.entries[i]) == file.0
                    &&& ws.entries[i].content == Some(file.1)
                    &&& !text::blank(file.1)
                }
        }),
{
    let chosen = workspace::ranked(ws.entries, priorities);
    let all = reads(chosen, ws.entries);
    let sources = planned_files_were_read(all, max_bytes);
    workspace::selected_files_are_read_once(ws.entries, priorities);
    let file = plan_of(all, max_bytes).files[k];
    assert(all[sources[k]] == (file.0, Some(file.1)));
    let c = chosen[sources[k]];
    assert(all[sources[k]] == (c.path, ws.entries[c.index].content));
}

proof fn lemma_readable_holds(reads: Seq<(Seq<char>, Option<Seq<char>>)>, i: int)
    requires
        0 <= i < reads.len(),
        reads[i].1 is Some,
        !text::blank(reads[i].1->0),
    ensures
        readable(reads).contains((reads[i].0, reads[i].1->0)),
    decreases reads.len(),
{
    let fewer = reads.drop_last();
    let file = (reads[i].0, reads[i].1->0);
    if i < fewer.len() {
        lemma_readable_holds(fewer, i);
        let k = choose|k: int| 0 <= k < readable(fewer).len() && readable(fewer)[k] == file;
        assert(readable(reads)[k] == file);
    } else {
        assert(readable(reads)[readable(reads).len() - 1] == file);
    }
}

/// Every file that the rules select is injected, where the budget holds all of
/// them and the file has something to inject.
pub proof fn every_selected_file_is_planned(
    ws: workspace::WorkspaceView,
    priorities: Seq<Option<int>>,
    max_bytes: int,
    i: int,
)
    requires
        priorities.len() == ws.entries.len(),
        has_filter(ws),
        files_size(readable(reads(workspace::ranked(ws.entries, priorities), ws.entries)))
            <= max_bytes,
        0 <= i < ws.entries.len(),
        workspace::selected(ws.entries, priorities, i),
        ws.entries[i].content is Some,
        !text::blank(ws.entries[i].content->0),
    ensures
        collected(ws, priorities, max_bytes) is Some,
        collected(ws, priorities, max_bytes)->0.skipped == 0,
        collected(ws, priorities, max_bytes)->0.files.contains(
            (workspace::rel_path(ws.entries[i]), ws.entries[i].content->0),
        ),
{
    let chosen = workspace::ranked(ws.entries, priorities);
    let all = reads(chosen, ws.entries);
    let c = workspace::candidate_at(ws.entries, priorities, i);
    workspace::selected_files_are_read_once(ws.entries, priorities);
    assert(chosen.contains(c));
    let k = choose|k: int| 0 <= k < chosen.len() && chosen[k] == c;
    assert(all[k] == (c.path, ws.entries[i].content));
    large_budget_skips_nothing(all, max_bytes);
    lemma_readable_holds(all, k);
}

/// A budget beyond one that holds all selected files changes nothing.
pub proof fn larger_budget_changes_nothing(
    ws: workspace::WorkspaceView,
    priorities: Seq<Option<int>>,
    max_bytes: int,
    larger: int,
)
    requires
        files_size(readable(reads(workspace::ranked(ws.entries, priorities), ws.entries)))
            <= max_bytes <= larger,
    ensures
        collected(ws, priorities, larger) == collected(ws, priorities, max_bytes),
{
    let all = reads(workspace::ranked(ws.entries, priorities), ws.entries);
    large_budget_skips_nothing(all, max_bytes);
    large_budget_skips_nothing(all, larger);
    lemma_plan_size(all, max_bytes);
    lemma_plan_size(all, larger);
    assert(plan_of(all, larger) =~= plan_of(all, max_bytes));
}

/// Only the contents of selected files matter: where two workspaces differ in
/// nothing else, they have the same plan.
pub proof fn other_contents_do_not_matter(
    a: workspace::WorkspaceView,
    b: workspace::WorkspaceView,
    priorities: Seq<Option<int>>,
    max_bytes: int,
)
    requires
        priorities.len() == a.entries.len(),
        a.entries.len() == b.entries.len(),
        has_filter(a) == has_filter(b),
        forall|i: int|
            #![trigger a.entries[i]]
            #![trigger b.entries[i]]
            0 <= i < a.entries.len() ==> {
                &&& a.entries[i].path == b.entries[i].path
                &&& a.entries[i].is_file == b.entries[i].is_file
                &&& workspace::selected(a.entries, priorities, i) ==> a.entries[i].content
                    == b.entries[i].content
            },
    ensures
        collected(a, priorities, max_bytes) == collected(b, priorities, max_bytes),
{
    lemma_same_candidates(a.entries, b.entries, priorities);
    let chosen = workspace::ranked(a.entries, priorities);
    workspace::selected_files_are_read_once(a.entries, priorities);
    assert(reads(chosen, a.entries) =~= reads(chosen, b.entries)) by {
        assert forall|k: int| 0 <= k < chosen.len() implies #[trigger] reads(
            chosen,
            a.entries,
        )[k] == reads(chosen, b.entries)[k] by {
            let i = chosen[k].index;
            assert(a.entries[i].content == b.entries[i].content);
        }
    }
}

proof fn lemma_same_candidates(
    a: Seq<workspace::EntryView>,
    b: Seq<workspace::EntryView>,
    priorities: Seq<Option<int>>,
)
    requires
        a.len() == b.len(),
        forall|i: int|
            #![trigger a[i]]
            #![trigger b[i]]
            0 <= i < a.len() ==> a[i].path == b[i].path && a[i].is_file == b[i].is_file,
    ensures
        workspace::candidates(a, priorities) == workspace::candidates(b, priorities),
    decreases a.len(),
{
    if a.len() > 0 {
        let (x, y) = (a.drop_last(), b.drop_last());
        assert forall|i: int| #![trigger x[i]] #![trigger y[i]] 0 <= i < x.len() implies x[i].path
            == y[i].path && x[i].is_file == y[i].is_file by {
            assert(x[i] == a[i] && y[i] == b[i]);
        }
        lemma_same_candidates(x, y, priorities.drop_last());
        assert(a[a.len() - 1].path == b[b.len() - 1].path);
    }
}

/// What the plan is made of: a selected file without its place in the walk.
#[verifier::ext_equal]
struct Pick {
    priority: int,
    path: Seq<char>,
    content: Option<Seq<char>>,
}

spec fn pick(c: workspace::CandidateView, entries: Seq<workspace::EntryView>) -> Pick {
    Pick { priority: c.priority, path: c.path, content: entries[c.index].content }
}

spec fn picked(
    e: workspace::EntryView,
    rank: spec_fn(workspace::EntryView) -> Option<int>,
) -> Seq<Pick> {
    match rank(e) {
        Some(p) => if e.is_file {
            seq![Pick { priority: p, path: workspace::rel_path(e), content: e.content }]
        } else {
            Seq::empty()
        },
        None => Seq::empty(),
    }
}

spec fn picks(
    entries: Seq<workspace::EntryView>,
    rank: spec_fn(workspace::EntryView) -> Option<int>,
) -> Seq<Pick>
    decreases entries.len(),
{
    if entries.len() == 0 {
        Seq::empty()
    } else {
        picks(entries.drop_last(), rank) + picked(entries.last(), rank)
    }
}

spec fn content_at_most(a: Option<Seq<char>>, b: Option<Seq<char>>) -> bool {
    match (a, b) {
        (None, _) => true,
        (Some(_), None) => false,
        (Some(x), Some(y)) => order::text_at_most(x, y),
    }
}

spec fn picked_before(a: Pick, b: Pick) -> bool {
    if a.priority != b.priority {
        a.priority < b.priority
    } else if a.path != b.path {
        order::text_at_most(a.path, b.path)
    } else {
        content_at_most(a.content, b.content)
    }
}

proof fn lemma_text_order(a: Seq<char>, b: Seq<char>, c: Seq<char>)
    ensures
        order::text_at_most(a, a),
        order::text_at_most(a, b) || order::text_at_most(b, a),
        order::text_at_most(a, b) && order::text_at_most(b, a) ==> a == b,
        order::text_at_most(a, b) && order::text_at_most(b, c) ==> order::text_at_most(a, c),
{
    order::text_order_total(a, a);
    order::text_order_total(a, b);
    if order::text_at_most(a, b) && order::text_at_most(b, a) {
        order::text_order_antisymmetric(a, b);
    }
    if order::text_at_most(a, b) && order::text_at_most(b, c) {
        order::text_order_transitive(a, b, c);
    }
}

proof fn lemma_picked_before_total()
    ensures
        vstd::relations::total_ordering(|a: Pick, b: Pick| picked_before(a, b)),
{
    let leq = |a: Pick, b: Pick| picked_before(a, b);
    assert forall|a: Pick| #[trigger] leq(a, a) by {
        if let Some(x) = a.content {
            lemma_text_order(x, x, x);
        }
    }
    assert forall|a: Pick, b: Pick| #[trigger] leq(a, b) && #[trigger] leq(b, a) implies a == b by {
        lemma_text_order(a.path, b.path, b.path);
        if let (Some(x), Some(y)) = (a.content, b.content) {
            lemma_text_order(x, y, y);
        }
        assert(a =~= b);
    }
    assert forall|a: Pick, b: Pick, c: Pick| #[trigger] leq(a, b) && #[trigger] leq(
        b,
        c,
    ) implies leq(a, c) by {
        lemma_text_order(a.path, b.path, c.path);
        lemma_text_order(b.path, a.path, a.path);
        lemma_text_order(b.path, c.path, c.path);
        if let (Some(x), Some(y), Some(z)) = (a.content, b.content, c.content) {
            lemma_text_order(x, y, z);
        }
    }
    assert forall|a: Pick, b: Pick| #[trigger] leq(a, b) || #[trigger] leq(b, a) by {
        lemma_text_order(a.path, b.path, b.path);
        if let (Some(x), Some(y)) = (a.content, b.content) {
            lemma_text_order(x, y, y);
        }
    }
}

proof fn lemma_picks_of_candidates(
    entries: Seq<workspace::EntryView>,
    rank: spec_fn(workspace::EntryView) -> Option<int>,
    n: int,
)
    requires
        0 <= n <= entries.len(),
    ensures
        workspace::candidates(entries.take(n), entries.take(n).map_values(rank)).map_values(
            |c: workspace::CandidateView| pick(c, entries),
        ) == picks(entries.take(n), rank),
    decreases n,
{
    let f = |c: workspace::CandidateView| pick(c, entries);
    let some = entries.take(n);
    if n == 0 {
        assert(workspace::candidates(some, some.map_values(rank)).map_values(f) =~= picks(
            some,
            rank,
        ));
    } else {
        lemma_picks_of_candidates(entries, rank, n - 1);
        let fewer = entries.take(n - 1);
        assert(some.drop_last() =~= fewer);
        assert(some.map_values(rank).drop_last() =~= fewer.map_values(rank));
        let before = workspace::candidates(fewer, fewer.map_values(rank));
        let found = workspace::candidates(some, some.map_values(rank));
        assert(some.map_values(rank).last() == rank(some.last()));
        assert(some.last() == entries[n - 1]);
        if found != before {
            assert(found.map_values(f) =~= before.map_values(f) + picked(some.last(), rank));
        } else {
            assert(picked(some.last(), rank) =~= Seq::empty());
            assert(picks(some, rank) =~= picks(fewer, rank));
        }
    }
}

proof fn lemma_picks_without(
    entries: Seq<workspace::EntryView>,
    j: int,
    rank: spec_fn(workspace::EntryView) -> Option<int>,
)
    requires
        0 <= j < entries.len(),
    ensures
        picks(entries, rank).to_multiset() == picks(entries.remove(j), rank).to_multiset().add(
            picked(entries[j], rank).to_multiset(),
        ),
    decreases entries.len(),
{
    let fewer = entries.drop_last();
    let last = picked(entries.last(), rank);
    vstd::seq_lib::lemma_multiset_commutative(picks(fewer, rank), last);
    if j == entries.len() - 1 {
        assert(entries.remove(j) =~= fewer);
    } else {
        lemma_picks_without(fewer, j, rank);
        assert(entries.remove(j).drop_last() =~= fewer.remove(j));
        assert(entries.remove(j).last() == entries.last());
        vstd::seq_lib::lemma_multiset_commutative(picks(fewer.remove(j), rank), last);
        assert(picks(entries, rank).to_multiset() =~= picks(
            entries.remove(j),
            rank,
        ).to_multiset().add(picked(entries[j], rank).to_multiset()));
    }
}

proof fn lemma_same_picks(
    a: Seq<workspace::EntryView>,
    b: Seq<workspace::EntryView>,
    rank: spec_fn(workspace::EntryView) -> Option<int>,
)
    requires
        a.to_multiset() == b.to_multiset(),
    ensures
        picks(a, rank).to_multiset() == picks(b, rank).to_multiset(),
    decreases a.len(),
{
    broadcast use vstd::seq_lib::group_to_multiset_ensures;

    vstd::seq_lib::to_multiset_len(a);
    vstd::seq_lib::to_multiset_len(b);
    if a.len() > 0 {
        let n = a.len() - 1;
        order::lemma_value_of_same(a, b, n);
        let j = choose|j: int| 0 <= j < b.len() && b[j] == a[n];
        assert(a.drop_last().to_multiset() =~= b.remove(j).to_multiset()) by {
            assert(a.remove(n) =~= a.drop_last());
        }
        lemma_same_picks(a.drop_last(), b.remove(j), rank);
        lemma_picks_without(b, j, rank);
        lemma_picks_without(a, n, rank);
        assert(a.remove(n) =~= a.drop_last());
    }
}

spec fn one_content_per_path(
    entries: Seq<workspace::EntryView>,
    priorities: Seq<Option<int>>,
) -> bool {
    forall|i: int, j: int|
        #![trigger entries[i], entries[j]]
        0 <= i < entries.len() && 0 <= j < entries.len() && workspace::selected(
            entries,
            priorities,
            i,
        ) && workspace::selected(entries, priorities, j) && workspace::rel_path(entries[i])
            == workspace::rel_path(entries[j]) ==> entries[i].content == entries[j].content
}

proof fn lemma_ranked_picks(
    entries: Seq<workspace::EntryView>,
    rank: spec_fn(workspace::EntryView) -> Option<int>,
)
    requires
        one_content_per_path(entries, entries.map_values(rank)),
    ensures
        ({
            let chosen = workspace::ranked(entries, entries.map_values(rank));
            let sorted = chosen.map_values(|c: workspace::CandidateView| pick(c, entries));
            &&& sorted == picks(entries, rank).sort_by(|a: Pick, b: Pick| picked_before(a, b))
            &&& reads(chosen, entries) == sorted.map_values(|p: Pick| (p.path, p.content))
        }),
{
    let priorities = entries.map_values(rank);
    let found = workspace::candidates(entries, priorities);
    let chosen = workspace::ranked(entries, priorities);
    let f = |c: workspace::CandidateView| pick(c, entries);
    let before = |a: workspace::CandidateView, b: workspace::CandidateView|
        workspace::read_before(a, b);
    let leq = |a: Pick, b: Pick| picked_before(a, b);
    let sorted = chosen.map_values(f);
    workspace::read_before_is_total();
    lemma_picked_before_total();
    found.lemma_sort_by_ensures(before);
    workspace::selected_files_are_read_once(entries, priorities);
    assert forall|k: int, l: int| 0 <= k < l < sorted.len() implies #[trigger] leq(
        sorted[k],
        sorted[l],
    ) by {
        let (c, d) = (chosen[k], chosen[l]);
        assert(before(c, d));
        assert(c == workspace::candidate_at(entries, priorities, c.index));
        assert(d == workspace::candidate_at(entries, priorities, d.index));
        if c.priority == d.priority && c.path == d.path {
            assert(entries[c.index].content == entries[d.index].content);
            assert(leq(sorted[k], sorted[k]));
        }
    }
    lemma_picks_of_candidates(entries, rank, entries.len() as int);
    assert(entries.take(entries.len() as int) =~= entries);
    order::lemma_same_values_map(chosen, found, f);
    picks(entries, rank).lemma_sort_by_ensures(leq);
    vstd::seq_lib::lemma_sorted_unique(sorted, picks(entries, rank).sort_by(leq), leq);
    assert(reads(chosen, entries) =~= sorted.map_values(|p: Pick| (p.path, p.content)));
}

/// The order of the walk does not matter: a workspace whose entries come in
/// another order has the same plan, unless two selected files have one path and
/// different contents.
pub proof fn walk_order_does_not_matter(
    a: workspace::WorkspaceView,
    b: workspace::WorkspaceView,
    max_bytes: int,
)
    requires
        a.is_dir == b.is_dir,
        a.agentsee == b.agentsee,
        a.entries.to_multiset() == b.entries.to_multiset(),
        forall|i: int, j: int|
            #![trigger a.entries[i], a.entries[j]]
            {
                &&& 0 <= i < a.entries.len()
                &&& 0 <= j < a.entries.len()
                &&& workspace::selected(a.entries, workspace_priorities(a), i)
                &&& workspace::selected(a.entries, workspace_priorities(a), j)
                &&& workspace::rel_path(a.entries[i]) == workspace::rel_path(a.entries[j])
            } ==> a.entries[i].content == a.entries[j].content,
    ensures
        collected(a, workspace_priorities(a), max_bytes) == collected(
            b,
            workspace_priorities(b),
            max_bytes,
        ),
{
    let filter = agentsee::filter_of(workspace_rules(a));
    let rank = |e: workspace::EntryView| agentsee::path_priority(filter, workspace::rel_path(e));
    assert(workspace_priorities(a) =~= a.entries.map_values(rank));
    assert(workspace_priorities(b) =~= b.entries.map_values(rank));
    assert(one_content_per_path(b.entries, workspace_priorities(b))) by {
        assert forall|i: int, j: int|
            #![trigger b.entries[i], b.entries[j]]
            {
                &&& 0 <= i < b.entries.len()
                &&& 0 <= j < b.entries.len()
                &&& workspace::selected(b.entries, workspace_priorities(b), i)
                &&& workspace::selected(b.entries, workspace_priorities(b), j)
                &&& workspace::rel_path(b.entries[i]) == workspace::rel_path(b.entries[j])
            } implies b.entries[i].content == b.entries[j].content by {
            order::lemma_value_of_same(b.entries, a.entries, i);
            order::lemma_value_of_same(b.entries, a.entries, j);
            let k = choose|k: int| 0 <= k < a.entries.len() && a.entries[k] == b.entries[i];
            let l = choose|l: int| 0 <= l < a.entries.len() && a.entries[l] == b.entries[j];
            assert(a.entries[k].content == a.entries[l].content);
        }
    }
    lemma_ranked_picks(a.entries, rank);
    lemma_ranked_picks(b.entries, rank);
    lemma_same_picks(a.entries, b.entries, rank);
    let leq = |a: Pick, b: Pick| picked_before(a, b);
    let (x, y) = (picks(a.entries, rank), picks(b.entries, rank));
    lemma_picked_before_total();
    x.lemma_sort_by_ensures(leq);
    y.lemma_sort_by_ensures(leq);
    vstd::seq_lib::lemma_sorted_unique(x.sort_by(leq), y.sort_by(leq), leq);
    let fa = |c: workspace::CandidateView| pick(c, a.entries);
    let fb = |c: workspace::CandidateView| pick(c, b.entries);
    assert(workspace::ranked(a.entries, workspace_priorities(a)).map_values(fa).len()
        == workspace::ranked(b.entries, workspace_priorities(b)).map_values(fb).len());
}

/// The token estimate of a content is a fourth of its characters, rounded up:
/// four times the estimate is at least their number, and at most three more.
pub proof fn estimate_is_a_fourth_rounded_up(content: Seq<char>)
    ensures
        content.len() <= 4 * token_estimate(content),
        4 * token_estimate(content) <= content.len() + 3,
{
}

/// The files are taken one after the other: a file that could not be read, or of
/// white space alone, changes nothing; any other goes in, behind those before
/// it, exactly when its bytes fit in what is left of the budget, and else counts
/// as skipped.
pub proof fn files_are_taken_while_they_fit(
    reads: Seq<(Seq<char>, Option<Seq<char>>)>,
    path: Seq<char>,
    content: Seq<char>,
    max_bytes: int,
)
    ensures
        ({
            let before = plan_of(reads, max_bytes);
            let unread = plan_of(reads.push((path, None)), max_bytes);
            let after = plan_of(reads.push((path, Some(content))), max_bytes);
            let size = vstd::utf8::encode_utf8(content).len();
            let blank = forall|i: int|
                0 <= i < content.len() ==> text::white_space(#[trigger] content[i]);
            &&& unread == before
            &&& blank ==> after == before
            &&& !blank && before.total_bytes + size <= max_bytes ==> {
                &&& after.files == before.files.push((path, content))
                &&& after.total_bytes == before.total_bytes + size
                &&& after.skipped == before.skipped
            }
            &&& !blank && before.total_bytes + size > max_bytes ==> {
                &&& after.files == before.files
                &&& after.total_bytes == before.total_bytes
                &&& after.skipped == before.skipped + 1
            }
        }),
        plan_of(Seq::empty(), max_bytes).files.len() == 0,
        plan_of(Seq::empty(), max_bytes).total_bytes == 0,
        plan_of(Seq::empty(), max_bytes).skipped == 0,
{
    assert(reads.push((path, None)).drop_last() =~= reads);
    assert(reads.push((path, Some(content))).drop_last() =~= reads);
}

/// The files of a plan are each of its own size, and all of them together of the
/// sum of their sizes.
pub proof fn sizes_of_files_add_up(
    files: Seq<(Seq<char>, Seq<char>)>,
    file: (Seq<char>, Seq<char>),
)
    ensures
        files_size(Seq::empty()) == 0,
        files_size(files.push(file)) == files_size(files) + vstd::utf8::encode_utf8(file.1).len(),
{
    assert(files.push(file).drop_last() =~= files);
}

/// The files with something to inject are those that could be read and hold more
/// than white space, in the order in which they were read.
pub proof fn readable_files_hold_something(
    reads: Seq<(Seq<char>, Option<Seq<char>>)>,
    path: Seq<char>,
    content: Seq<char>,
)
    ensures
        readable(Seq::empty()).len() == 0,
        readable(reads.push((path, None))) == readable(reads),
        (forall|i: int| 0 <= i < content.len() ==> text::white_space(#[trigger] content[i]))
            ==> readable(reads.push((path, Some(content)))) == readable(reads),
        !(forall|i: int| 0 <= i < content.len() ==> text::white_space(#[trigger] content[i]))
            ==> readable(reads.push((path, Some(content)))) == readable(reads).push(
            (path, content),
        ),
{
    assert(reads.push((path, None)).drop_last() =~= reads);
    assert(reads.push((path, Some(content))).drop_last() =~= reads);
}

/// There is a plan exactly where the root is a directory, its `.agentsee` file
/// can be read and holds more than white space, and some regular file has a
/// priority. It is the plan of the selected files in their order: of each, its
/// path and its content.
pub proof fn plan_is_that_of_the_selected_files(
    ws: workspace::WorkspaceView,
    priorities: Seq<Option<int>>,
    max_bytes: int,
)
    requires
        priorities.len() == ws.entries.len(),
    ensures
        collected(ws, priorities, max_bytes) is Some <==> {
            &&& ws.is_dir
            &&& ws.agentsee is Some
            &&& exists|k: int|
                0 <= k < ws.agentsee->0.len() && !text::white_space(#[trigger] ws.agentsee->0[k])
            &&& exists|i: int|
                0 <= i < ws.entries.len() && (#[trigger] ws.entries[i]).is_file
                    && priorities[i] is Some
        },
        collected(ws, priorities, max_bytes) matches Some(p) ==> exists|
            all: Seq<(Seq<char>, Option<Seq<char>>)>,
        |
            #![trigger plan_of(all, max_bytes)]
            {
                let chosen = workspace::ranked(ws.entries, priorities);
                &&& p == plan_of(all, max_bytes)
                &&& all.len() == chosen.len()
                &&& forall|k: int|
                    #![trigger all[k]]
                    0 <= k < all.len() ==> all[k] == (
                        chosen[k].path,
                        ws.entries[chosen[k].index].content,
                    )
            },
{
    let chosen = workspace::ranked(ws.entries, priorities);
    workspace::reading_order(ws.entries, priorities);
    if chosen.len() > 0 {
        assert(ws.entries[chosen[0].index].is_file);
    }
    if exists|i: int|
        0 <= i < ws.entries.len() && (#[trigger] ws.entries[i]).is_file && priorities[i] is Some {
        let i = choose|i: int|
            0 <= i < ws.entries.len() && (#[trigger] ws.entries[i]).is_file
                && priorities[i] is Some;
        assert(exists|k: int| 0 <= k < chosen.len() && (#[trigger] chosen[k]).index == i);
    }
    let all = reads(chosen, ws.entries);
    if let Some(p) = collected(ws, priorities, max_bytes) {
        assert(p == plan_of(all, max_bytes));
    }
}

/// The priorities of a workspace are those that the rules of its `.agentsee`
/// file give to the paths of its entries.
pub proof fn priorities_are_those_of_the_file(ws: workspace::WorkspaceView, i: int)
    requires
        0 <= i < ws.entries.len(),
    ensures
        ws.agentsee matches Some(t) ==> workspace_rules(ws) == agentsee::rule_lines(t),
        workspace_priorities(ws).len() == ws.entries.len(),
        workspace_priorities(ws)[i] == agentsee::path_priority(
            agentsee::filter_of(workspace_rules(ws)),
            workspace::rel_path(ws.entries[i]),
        ),
{
}

/// Priorities that the entries of a workspace may have come from one filter that
/// its rules may stand for.
pub proof fn possible_priorities_come_from_one_filter(
    ws: workspace::WorkspaceView,
    priorities: Seq<Option<int>>,
)
    requires
        possible_priorities(ws, priorities),
    ensures
        priorities.len() == ws.entries.len(),
        exists|filter: agentsee::AgentseeView|
            #![trigger agentsee::may_filter(workspace_rules(ws), filter)]
            {
                &&& agentsee::may_filter(workspace_rules(ws), filter)
                &&& forall|i: int|
                    #![trigger priorities[i]]
                    0 <= i < ws.entries.len() ==> agentsee::may_rank(
                        filter,
                        workspace::rel_path(ws.entries[i]),
                        priorities[i],
                    )
            },
{
    let filter = choose|filter: agentsee::AgentseeView| #[trigger]
        agentsee::may_filter(workspace_rules(ws), filter) && workspace::may_rank_all(
            filter,
            ws.entries,
            priorities,
        );
    assert(agentsee::may_filter(workspace_rules(ws), filter));
}

/// The model of a plan shows all of it, and a plan that is well formed counts
/// and estimates each of its files.
pub proof fn model_shows_the_plan(plan: InjectPlan, i: int)
    requires
        plan.wf(),
        0 <= i < plan.files@.len(),
    ensures
        plan@.files.len() == plan.files@.len(),
        plan@.files[i].0 == plan.files@[i].0@,
        plan@.files[i].1 == plan.files@[i].1@,
        plan@.total_bytes == plan.total_bytes,
        plan@.skipped == plan.skipped_count,
        plan.file_count == plan.files@.len(),
        plan.file_tokens@.len() == plan.files@.len(),
        plan.file_tokens@[i].0@ == plan.files@[i].0@,
        plan.files@[i].1@.len() <= 4 * plan.file_tokens@[i].1 <= plan.files@[i].1@.len() + 3,
        plan_view(Some(plan)) == Some(plan@),
        plan_view(None) is None,
{
    assert(plan.file_tokens@[i].1 == token_estimate(plan.files@[i].1@));
}

} // verus!
