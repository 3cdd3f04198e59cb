//! The injection commands: all selected project files into the conversation,
//! and an estimate of what that costs.

use vstd::prelude::*;
use vstd::string::*;

use crate::agentsee;
use crate::conversation;
use crate::conversation::{
    App, AppAction, CommandResult, ContentBlock, HistoryCell, Message, ReadFileInput,
};
use crate::number;
use crate::number::{parse_number, push_decimal};
use crate::order;
use crate::plan;
use crate::plan::{collect_project_files, InjectPlan};
use crate::text;
use crate::text::{byte_len, chars_of, has_prefix, is_blank, trimmed, trimmed_start};
use crate::workspace;
use crate::workspace::Workspace;

verus! {

/// The token budget of an injection where nothing else is set.
pub const DEFAULT_MAX_INJECT_TOKENS: usize = 200_000;

/// The flag that sets the token budget of one injection.
pub const MAX_TOKENS_FLAG: &'static str = "--max-tokens";

/// A token budget in bytes, at four characters to a token.
pub open spec fn bytes_for_tokens(tokens: usize) -> usize {
    if tokens * 4 > usize::MAX {
        usize::MAX
    } else {
        (tokens * 4) as usize
    }
}

/// Converts a token budget to a byte budget, at four characters to a token.
pub fn tokens_to_bytes(tokens: usize) -> (bytes: usize)
    ensures
        bytes == bytes_for_tokens(tokens),
{
    match tokens.checked_mul(4) {
        Some(bytes) => bytes,
        None => usize::MAX,
    }
}

// ---------------------------------------------------------------------------
// The argument of a command
// ---------------------------------------------------------------------------

/// The number of characters before the first white space.
pub open spec fn word_length(s: Seq<char>) -> nat
    decreases s.len(),
{
    if s.len() == 0 || text::white_space(s[0]) {
        0
    } else {
        1 + word_length(s.drop_first())
    }
}

/// What the text behind the budget flag says: the number up to the first white
/// space, and the text behind that white space, if it is not blank.
pub open spec fn parsed_flag(rest: Seq<char>) -> (Option<usize>, Option<Seq<char>>) {
    let n = word_length(rest) as int;
    let trailing = if n < rest.len() {
        text::trim(rest.skip(n + 1))
    } else {
        Seq::empty()
    };
    (
        number::read_number(rest.take(n)),
        if trailing.len() > 0 {
            Some(trailing)
        } else {
            None
        },
    )
}

/// The budget that an argument sets, and the text of the user in it.
pub open spec fn parsed_arg(arg: Option<Seq<char>>) -> (Option<usize>, Option<Seq<char>>) {
    match arg {
        None => (None, None),
        Some(a) => if !MAX_TOKENS_FLAG@.is_prefix_of(a) {
            (None, Some(a))
        } else {
            let rest = text::trim_start(a.skip(MAX_TOKENS_FLAG@.len() as int));
            if rest.len() == 0 {
                (None, None)
            } else {
                parsed_flag(rest)
            }
        },
    }
}

proof fn lemma_word_length(s: Seq<char>, n: int)
    requires
        0 <= n <= s.len(),
        forall|i: int| 0 <= i < n ==> !text::white_space(#[trigger] s[i]),
        n < s.len() ==> text::white_space(s[n]),
    ensures
        word_length(s) == n,
    decreases s.len(),
{
    if n > 0 {
        let rest = s.drop_first();
        assert(!text::white_space(s[0]));
        assert forall|i: int| 0 <= i < n - 1 implies !text::white_space(#[trigger] rest[i]) by {
            assert(rest[i] == s[i + 1]);
        }
        lemma_word_length(rest, n - 1);
    }
}

/// Splits the argument of a command into an optional token budget, given as
/// `--max-tokens N` in front, and the text of the user.
pub fn parse_inject_arg(arg: Option<&str>) -> (r: (Option<usize>, Option<String>))
    ensures
        (r.0, text::opt_text(r.1)) == parsed_arg(text::opt_str(arg)),
{
    let arg = match arg {
        None => {
            return (None, None);
        },
        Some(a) => a,
    };
    if !has_prefix(arg, MAX_TOKENS_FLAG) {
        return (None, Some(arg.to_owned()));
    }
    let behind = arg.substring_char(MAX_TOKENS_FLAG.unicode_len(), arg.unicode_len());
    assert(behind@ =~= arg@.skip(MAX_TOKENS_FLAG@.len() as int));
    let rest = trimmed_start(behind);
    let n: usize = rest.unicode_len();
    if n == 0 {
        return (None, None);
    }
    let chars = chars_of(rest);
    let mut i: usize = 0;
    while i < n && !text::is_white_space(chars[i])
        invariant
            chars@ == rest@,
            n == rest@.len(),
            i <= n,
            forall|k: int| 0 <= k < i ==> !text::white_space(#[trigger] rest@[k]),
        decreases n - i,
    {
        i += 1;
    }
    proof {
        lemma_word_length(rest@, i as int);
    }
    let number = rest.substring_char(0, i);
    assert(number@ =~= rest@.take(i as int));
    let tokens = parse_number(number);
    if i < n {
        let after = rest.substring_char(i + 1, n);
        assert(after@ =~= rest@.skip(i + 1));
        let trailing = trimmed(after);
        if trailing.unicode_len() > 0 {
            return (tokens, Some(trailing.to_owned()));
        }
    }
    (tokens, None)
}

fn parse_raw_arg(raw_arg: &Option<String>) -> (r: (Option<usize>, Option<String>))
    ensures
        (r.0, text::opt_text(r.1)) == parsed_arg(text::opt_text(*raw_arg)),
{
    match raw_arg {
        Some(a) => parse_inject_arg(Some(a.as_str())),
        None => parse_inject_arg(None),
    }
}

/// The token budget of an injection: that of the argument, or else that of the
/// application.
pub open spec fn token_budget(app: conversation::AppView, arg: Option<Seq<char>>) -> usize {
    match parsed_arg(arg).0 {
        Some(n) => n,
        None => app.max_inject_tokens,
    }
}

/// The byte budget of an injection.
pub open spec fn byte_budget(app: conversation::AppView, arg: Option<Seq<char>>) -> int {
    bytes_for_tokens(token_budget(app, arg)) as int
}

// ---------------------------------------------------------------------------
// Injection
// ---------------------------------------------------------------------------

/// What the user is told where there is no `.agentsee` file.
pub const NO_AGENTSEE: &'static str = "No .agentsee file found at workspace root.\n\nCreate a .agentsee file to specify which files to inject. Each line is a gitignore-style pattern for files to INCLUDE (e.g. \"*.rs\", \"src/\"). Lines starting with ! are force-excluded (e.g. \"!tests/\").";

/// What the user is told where no file is selected.
pub const NO_MATCH: &'static str = "No files matched the .agentsee patterns. Check that your patterns match files in the workspace.";

/// The last line of the header.
pub const HEADER_END: &'static str = "\n\nThe following files have been loaded via read_file calls and are now available in your context.";

/// The note on skipped files.
pub open spec fn skipped_note(skipped: int) -> Seq<char> {
    if skipped > 0 {
        " ("@ + number::decimal(skipped as nat) + " file(s) skipped due to size budget)"@
    } else {
        Seq::empty()
    }
}

/// The header of an injection.
pub open spec fn header_text(root: Seq<char>, p: plan::PlanView) -> Seq<char> {
    "## Full Project Code Injection\n\nWorkspace: "@ + root + "\nFiles injected: "@
        + number::decimal(p.files.len()) + " (~"@ + number::decimal(
        (p.total_bytes / 1024) as nat,
    ) + " KB total)"@ + skipped_note(p.skipped) + HEADER_END@
}

/// The id of the tool call for file `i`.
pub open spec fn tool_id(i: nat) -> Seq<char> {
    "inj_"@ + number::decimal(i)
}

/// The call that reads file `i`.
pub open spec fn call_message(i: nat, path: Seq<char>) -> conversation::MessageView {
    conversation::MessageView {
        role: "assistant"@,
        content: seq![
            conversation::BlockView::ToolUse { id: tool_id(i), name: "read_file"@, path },
        ],
    }
}

/// The result of the call that reads file `i`.
pub open spec fn result_message(i: nat, content: Seq<char>) -> conversation::MessageView {
    conversation::MessageView {
        role: "user"@,
        content: seq![
            conversation::BlockView::ToolResult {
                tool_use_id: tool_id(i),
                content,
                is_error: None,
            },
        ],
    }
}

/// The messages of an injection: for each file a call and its result.
pub open spec fn file_messages(
    files: Seq<(Seq<char>, Seq<char>)>,
) -> Seq<conversation::MessageView>
    decreases files.len(),
{
    if files.len() == 0 {
        Seq::empty()
    } else {
        let i = (files.len() - 1) as nat;
        file_messages(files.drop_last()).push(call_message(i, files.last().0)).push(
            result_message(i, files.last().1),
        )
    }
}

/// The list of the injected paths, each in backticks.
pub open spec fn path_list(files: Seq<(Seq<char>, Seq<char>)>) -> Seq<char>
    decreases files.len(),
{
    if files.len() == 0 {
        Seq::empty()
    } else {
        path_list(files.drop_last()) + "  `"@ + files.last().0 + "`\n"@
    }
}

/// What the transcript says of the injected files.
pub open spec fn summary_text(p: plan::PlanView) -> Seq<char> {
    "Injected "@ + number::decimal(p.files.len()) + " files as read_file calls:\n"@ + path_list(
        p.files,
    )
}

/// What the user is told of an injection.
pub open spec fn status_text(p: plan::PlanView, max_tokens: usize) -> Seq<char> {
    "Injected "@ + number::decimal(p.files.len()) + " files (~"@ + number::decimal(
        (p.total_bytes / 1024) as nat,
    ) + " KB) into context as read_file calls (budget: ~"@ + number::decimal(
        (max_tokens / 1000) as nat,
    ) + "K tokens)"@ + skipped_note(p.skipped)
}

/// The message that starts the next turn: the text of the user, or the header
/// where there is none.
pub open spec fn trigger_text(
    root: Seq<char>,
    p: plan::PlanView,
    user_text: Option<Seq<char>>,
) -> Seq<char> {
    match user_text {
        Some(t) => if text::blank(t) {
            header_text(root, p)
        } else {
            t
        },
        None => header_text(root, p),
    }
}

/// The application and the result after an injection, given the plan.
pub open spec fn injected(
    app: conversation::AppView,
    arg: Option<Seq<char>>,
    found: Option<plan::PlanView>,
) -> (conversation::AppView, conversation::ResultView) {
    if !app.workspace.has_agentsee {
        (app, conversation::ResultView { message: Some(NO_AGENTSEE@), send: None })
    } else {
        match found {
            None => (app, conversation::ResultView { message: Some(NO_MATCH@), send: None }),
            Some(p) => (
                conversation::AppView {
                    api_messages: app.api_messages + file_messages(p.files),
                    history: app.history.push(header_text(app.workspace.root, p)).push(
                        summary_text(p),
                    ),
                    history_updated: true,
                    ..app
                },
                conversation::ResultView {
                    message: Some(status_text(p, token_budget(app, arg))),
                    send: Some(trigger_text(app.workspace.root, p, parsed_arg(arg).1)),
                },
            ),
        }
    }
}

fn push_skipped_note(s: &mut String, skipped: usize)
    ensures
        final(s)@ == old(s)@ + skipped_note(skipped as int),
{
    if skipped > 0 {
        s.append(" (");
        push_decimal(s, skipped);
        s.append(" file(s) skipped due to size budget)");
    }
    assert(s@ =~= old(s)@ + skipped_note(skipped as int));
}

fn make_header(root: &str, plan: &InjectPlan) -> (r: String)
    requires
        plan.wf(),
    ensures
        r@ == header_text(root@, plan@),
{
    let mut s = "## Full Project Code Injection\n\nWorkspace: ".to_owned();
    s.append(root);
    s.append("\nFiles injected: ");
    push_decimal(&mut s, plan.file_count);
    s.append(" (~");
    push_decimal(&mut s, plan.total_bytes / 1024);
    s.append(" KB total)");
    push_skipped_note(&mut s, plan.skipped_count);
    s.append(HEADER_END);
    s
}

fn make_tool_id(i: usize) -> (r: String)
    ensures
        r@ == tool_id(i as nat),
{
    let mut s = "inj_".to_owned();
    push_decimal(&mut s, i);
    s
}

fn make_call(i: usize, path: &str) -> (r: Message)
    ensures
        r@ == call_message(i as nat, path@),
{
    let mut content: Vec<ContentBlock> = Vec::new();
    content.push(
        ContentBlock::ToolUse {
            id: make_tool_id(i),
            name: "read_file".to_owned(),
            input: ReadFileInput { path: path.to_owned() },
        },
    );
    let m = Message { role: "assistant".to_owned(), content };
    assert(m@ =~= call_message(i as nat, path@));
    m
}

fn make_result(i: usize, text: &str) -> (r: Message)
    ensures
        r@ == result_message(i as nat, text@),
{
    let mut content: Vec<ContentBlock> = Vec::new();
    content.push(
        ContentBlock::ToolResult {
            tool_use_id: make_tool_id(i),
            content: text.to_owned(),
            is_error: None,
        },
    );
    let m = Message { role: "user".to_owned(), content };
    assert(m@ =~= result_message(i as nat, text@));
    m
}

fn make_summary(plan: &InjectPlan) -> (r: String)
    requires
        plan.wf(),
    ensures
        r@ == summary_text(plan@),
{
    let ghost files = plan@.files;
    let mut list = String::new();
    let mut i: usize = 0;
    assert(files.take(0) =~= Seq::empty());
    while i < plan.files.len()
        invariant
            files == plan@.files,
            i <= plan.files@.len(),
            list@ == path_list(files.take(i as int)),
        decreases plan.files@.len() - i,
    {
        proof {
            assert(files.take(i + 1).drop_last() =~= files.take(i as int));
            assert(files.take(i + 1).last() == files[i as int]);
            assert(files[i as int].0 == plan.files@[i as int].0@);
        }
        list.append("  `");
        list.append(plan.files[i].0.as_str());
        list.append("`\n");
        i += 1;
    }
    assert(files.take(files.len() as int) =~= files);
    let mut s = "Injected ".to_owned();
    push_decimal(&mut s, plan.file_count);
    s.append(" files as read_file calls:\n");
    s.append(list.as_str());
    s
}

fn make_status(plan: &InjectPlan, max_tokens: usize) -> (r: String)
    requires
        plan.wf(),
    ensures
        r@ == status_text(plan@, max_tokens),
{
    let mut s = "Injected ".to_owned();
    push_decimal(&mut s, plan.file_count);
    s.append(" files (~");
    push_decimal(&mut s, plan.total_bytes / 1024);
    s.append(" KB) into context as read_file calls (budget: ~");
    push_decimal(&mut s, max_tokens / 1000);
    s.append("K tokens)");
    push_skipped_note(&mut s, plan.skipped_count);
    s
}

/// Puts the files of a plan into the conversation and has the next turn start.
pub fn apply_plan(
    app: &mut App,
    plan: &InjectPlan,
    max_tokens: usize,
    user_text: Option<String>,
) -> (r: CommandResult)
    requires
        plan.wf(),
    ensures
        final(app)@ == (conversation::AppView {
            api_messages: old(app)@.api_messages + file_messages(plan@.files),
            history: old(app)@.history.push(
                header_text(old(app)@.workspace.root, plan@),
            ).push(summary_text(plan@)),
            history_updated: true,
            ..old(app)@
        }),
        final(app).workspace == old(app).workspace,
        r@ == (conversation::ResultView {
            message: Some(status_text(plan@, max_tokens)),
            send: Some(
                trigger_text(old(app)@.workspace.root, plan@, text::opt_text(user_text)),
            ),
        }),
{
    let ghost before = app@;
    let ghost files = plan@.files;
    let header = make_header(app.workspace.root.as_str(), plan);
    app.push_history_cell(HistoryCell::System { content: header.clone() });
    let ghost headed = app@;
    let mut i: usize = 0;
    assert(files.take(0) =~= Seq::empty());
    assert(before.api_messages + file_messages(files.take(0)) =~= before.api_messages);
    while i < plan.files.len()
        invariant
            files == plan@.files,
            i <= plan.files@.len(),
            app.workspace == old(app).workspace,
            app@ == (conversation::AppView {
                api_messages: before.api_messages + file_messages(files.take(i as int)),
                ..headed
            }),
        decreases plan.files@.len() - i,
    {
        let ghost sent = file_messages(files.take(i as int));
        proof {
            assert(files.take(i + 1).drop_last() =~= files.take(i as int));
            assert(files.take(i + 1).last() == files[i as int]);
            assert(files[i as int].0 == plan.files@[i as int].0@);
            assert(files[i as int].1 == plan.files@[i as int].1@);
        }
        let call = make_call(i, plan.files[i].0.as_str());
        let result = make_result(i, plan.files[i].1.as_str());
        app.push_message(call);
        app.push_message(result);
        proof {
            assert(app@.api_messages =~= before.api_messages + file_messages(files.take(i + 1)));
        }
        i += 1;
    }
    assert(files.take(files.len() as int) =~= files);
    app.push_history_cell(HistoryCell::System { content: make_summary(plan) });
    app.mark_history_updated();
    let trigger = match user_text {
        Some(t) => {
            if is_blank(t.as_str()) {
                header
            } else {
                t
            }
        },
        None => header,
    };
    CommandResult::with_message_and_action(
        make_status(plan, max_tokens),
        AppAction::SendMessage(trigger),
    )
}

/// Injects the files that the `.agentsee` file selects into the conversation,
/// as `read_file` calls with their results.
///
/// The text of the user in the argument, or else the header, is sent as the
/// next message. Which paths the patterns with a backslash match depends on the
/// platform; the rest is the same function of the priorities for every outcome.
pub fn inject_full_codes(app: &mut App, raw_arg: Option<String>) -> (r: CommandResult)
    ensures
        final(app).workspace == old(app).workspace,
        exists|priorities: Seq<Option<int>>| #[trigger]
            plan::possible_priorities(old(app)@.workspace, priorities) && (final(app)@, r@)
                == injected(
                old(app)@,
                text::opt_text(raw_arg),
                plan::collected(
                    old(app)@.workspace,
                    priorities,
                    byte_budget(old(app)@, text::opt_text(raw_arg)),
                ),
            ),
        agentsee::all_portable(plan::workspace_rules(old(app)@.workspace)) ==> (final(app)@, r@)
            == injected(
            old(app)@,
            text::opt_text(raw_arg),
            plan::collected(
                old(app)@.workspace,
                plan::workspace_priorities(old(app)@.workspace),
                byte_budget(old(app)@, text::opt_text(raw_arg)),
            ),
        ),
{
    let ghost before = app@;
    let (max_tokens_override, user_text) = parse_raw_arg(&raw_arg);
    let max_tokens: usize = match max_tokens_override {
        Some(n) => n,
        None => app.max_inject_tokens,
    };
    if app.workspace.lacks_agentsee() {
        proof {
            plan::own_priorities_are_possible(before.workspace);
        }
        return CommandResult::message(NO_AGENTSEE.to_owned());
    }
    let max_bytes: usize = tokens_to_bytes(max_tokens);
    let found = collect_project_files(&app.workspace, max_bytes);
    let ghost priorities = choose|priorities: Seq<Option<int>>| #[trigger]
        plan::possible_priorities(before.workspace, priorities) && plan::plan_view(found)
            == plan::collected(before.workspace, priorities, max_bytes as int);
    assert(plan::possible_priorities(before.workspace, priorities));
    match found {
        None => CommandResult::message(NO_MATCH.to_owned()),
        Some(plan) => apply_plan(app, &plan, max_tokens, user_text),
    }
}

// ---------------------------------------------------------------------------
// The token estimate
// ---------------------------------------------------------------------------

/// What the user is told by the estimate where there is no `.agentsee` file.
pub const NO_AGENTSEE_TO_ESTIMATE: &'static str = "No .agentsee file found at workspace root. Create one first, then use /full-codes-tokens to estimate.";

/// What the user is told by the estimate where no file is selected.
pub const NO_MATCH_TO_ESTIMATE: &'static str = "No files matched the .agentsee patterns.";

/// The characters that a file adds to the messages: its path and the framing of
/// the call, and its content and the framing of the result.
pub open spec fn framed_size(file: (Seq<char>, Seq<char>)) -> nat {
    text::byte_size(file.0) + 64 + plan::token_estimate(file.1) * 4 + 32
}

/// The characters of all messages of an injection: the header and the files.
pub open spec fn message_chars(files: Seq<(Seq<char>, Seq<char>)>) -> nat
    decreases files.len(),
{
    if files.len() == 0 {
        256
    } else {
        message_chars(files.drop_last()) + framed_size(files.last())
    }
}

/// The tokens of the contents of some files.
pub open spec fn content_tokens(files: Seq<(Seq<char>, Seq<char>)>) -> nat
    decreases files.len(),
{
    if files.len() == 0 {
        0
    } else {
        content_tokens(files.drop_last()) + plan::token_estimate(files.last().1)
    }
}

/// The tokens of all messages of an injection.
pub open spec fn message_tokens(files: Seq<(Seq<char>, Seq<char>)>) -> nat {
    (message_chars(files) + 3) / 4
}

/// The width of the column of the paths: that of the longest path with its
/// backticks, and at least 8.
pub open spec fn column_width(files: Seq<(Seq<char>, Seq<char>)>) -> int
    decreases files.len(),
{
    if files.len() == 0 {
        8
    } else {
        let before = column_width(files.drop_last());
        let width = text::byte_size(files.last().0) + 2;
        if width > before {
            width as int
        } else {
            before
        }
    }
}

/// A number of spaces.
pub open spec fn spaces(n: int) -> Seq<char> {
    Seq::new(n as nat, |i: int| ' ')
}

/// The lines of the breakdown: each path, padded to the width of the column,
/// and the tokens of its content.
pub open spec fn breakdown(files: Seq<(Seq<char>, Seq<char>)>, width: int) -> Seq<char>
    decreases files.len(),
{
    if files.len() == 0 {
        Seq::empty()
    } else {
        let file = files.last();
        breakdown(files.drop_last(), width) + "  `"@ + file.0 + "`"@ + spaces(
            width - (text::byte_size(file.0) + 2) + 2,
        ) + "~"@ + number::decimal(plan::token_estimate(file.1)) + " tokens\n"@
    }
}

/// The line on skipped files.
pub open spec fn skipped_line(skipped: int) -> Seq<char> {
    if skipped > 0 {
        "\nFiles skipped (budget): "@ + number::decimal(skipped as nat)
    } else {
        Seq::empty()
    }
}

/// The report of the estimate.
pub open spec fn estimate_text(
    root: Seq<char>,
    p: plan::PlanView,
    max_tokens: usize,
) -> Seq<char> {
    let all = message_tokens(p.files);
    let content = content_tokens(p.files);
    let framing = if all > content {
        (all - content) as nat
    } else {
        0
    };
    "Full Codes Token Estimate (as read_file tool calls)\nWorkspace: "@ + root
        + "\nBudget: ~"@ + number::decimal(max_tokens as nat) + " tokens\nFiles: "@
        + number::decimal(p.files.len()) + "\nContent size: ~"@ + number::decimal(
        (p.total_bytes / 1024) as nat,
    ) + " KB\nEstimated tokens: ~"@ + number::decimal(all)
        + "  (~4 chars/token heuristic)\ncontent: ~"@ + number::decimal(content)
        + "\nframing: ~"@ + number::decimal(framing) + skipped_line(p.skipped)
        + "\n\nPer-file breakdown (priority order):\n"@ + breakdown(
        p.files,
        column_width(p.files),
    )
}

/// The result of the estimate, given the plan.
pub open spec fn estimated(
    app: conversation::AppView,
    arg: Option<Seq<char>>,
    found: Option<plan::PlanView>,
) -> conversation::ResultView {
    let message = if !app.workspace.has_agentsee {
        NO_AGENTSEE_TO_ESTIMATE@
    } else {
        match found {
            None => NO_MATCH_TO_ESTIMATE@,
            Some(p) => estimate_text(app.workspace.root, p, token_budget(app, arg)),
        }
    };
    conversation::ResultView { message: Some(message), send: None }
}

/// What an entry can add to the messages of an injection at most.
pub open spec fn entry_size(e: workspace::EntryView) -> int {
    text::byte_size(workspace::rel_path(e)) as int + 99 + match e.content {
        Some(c) => text::byte_size(c) as int,
        None => 0,
    }
}

/// What the entries of a workspace can add to the messages at most, with the
/// header.
pub open spec fn entries_size(entries: Seq<workspace::EntryView>) -> int
    decreases entries.len(),
{
    if entries.len() == 0 {
        256
    } else {
        entries_size(entries.drop_last()) + entry_size(entries.last())
    }
}

/// Whether the size of everything in a workspace is in the range of `usize`.
pub open spec fn countable(ws: workspace::WorkspaceView) -> bool {
    entries_size(ws.entries) <= usize::MAX
}

proof fn lemma_chars_at_most_bytes(s: Seq<char>)
    ensures
        s.len() <= text::byte_size(s),
    decreases s.len(),
{
    if s.len() > 0 {
        lemma_chars_at_most_bytes(s.drop_first());
    }
}

proof fn lemma_entries_size_grows(entries: Seq<workspace::EntryView>, n: int)
    requires
        0 <= n <= entries.len(),
    ensures
        256 <= entries_size(entries.take(n)) <= entries_size(entries),
    decreases entries.len() - n,
{
    if n == entries.len() {
        assert(entries.take(n) =~= entries);
        lemma_entries_size_positive(entries);
    } else {
        lemma_entries_size_grows(entries, n + 1);
        assert(entries.take(n + 1).drop_last() =~= entries.take(n));
        lemma_entries_size_positive(entries.take(n));
    }
}

proof fn lemma_entries_size_positive(entries: Seq<workspace::EntryView>)
    ensures
        entries_size(entries) >= 256,
    decreases entries.len(),
{
    if entries.len() > 0 {
        lemma_entries_size_positive(entries.drop_last());
    }
}

/// Whether the size of everything in the workspace is in the range of `usize`.
pub fn is_countable(workspace: &Workspace) -> (r: bool)
    ensures
        r == countable(workspace@),
{
    let ghost all = workspace@.entries;
    let mut sum: usize = 256;
    let mut i: usize = 0;
    assert(all.take(0) =~= Seq::empty());
    while i < workspace.entries.len()
        invariant
            all == workspace@.entries,
            i <= workspace.entries@.len(),
            sum == entries_size(all.take(i as int)),
        decreases workspace.entries@.len() - i,
    {
        let entry = &workspace.entries[i];
        proof {
            assert(all[i as int] == entry@);
            assert(all.take(i + 1).drop_last() =~= all.take(i as int));
            assert(all.take(i + 1).last() == entry@);
            lemma_entries_size_grows(all, i + 1);
        }
        let path = text::to_slashes(entry.path.as_str());
        let content: usize = match &entry.content {
            Some(c) => byte_len(c.as_str()),
            None => 0,
        };
        match sum.checked_add(byte_len(path.as_str())) {
            None => {
                return false;
            },
            Some(n) => {
                sum = n;
            },
        }
        match sum.checked_add(99) {
            None => {
                return false;
            },
            Some(n) => {
                sum = n;
            },
        }
        match sum.checked_add(content) {
            None => {
                return false;
            },
            Some(n) => {
                sum = n;
            },
        }
        i += 1;
    }
    assert(all.take(all.len() as int) =~= all);
    true
}

spec fn read_size(read: (Seq<char>, Option<Seq<char>>)) -> int {
    text::byte_size(read.0) as int + 99 + match read.1 {
        Some(c) => text::byte_size(c) as int,
        None => 0,
    }
}

proof fn lemma_plan_size(reads: Seq<(Seq<char>, Option<Seq<char>>)>, max_bytes: int)
    ensures
        message_chars(plan::plan_of(reads, max_bytes).files) <= 256 + order::total(
            reads,
            |r: (Seq<char>, Option<Seq<char>>)| read_size(r),
        ),
    decreases reads.len(),
{
    if reads.len() > 0 {
        lemma_plan_size(reads.drop_last(), max_bytes);
        let before = plan::plan_of(reads.drop_last(), max_bytes);
        if let Some(c) = reads.last().1 {
            lemma_chars_at_most_bytes(c);
            assert(before.files.push((reads.last().0, c)).drop_last() =~= before.files);
        }
    }
}

proof fn lemma_total_of_reads(
    chosen: Seq<workspace::CandidateView>,
    entries: Seq<workspace::EntryView>,
)
    ensures
        order::total(
            plan::reads(chosen, entries),
            |r: (Seq<char>, Option<Seq<char>>)| read_size(r),
        ) == order::total(
            chosen,
            |c: workspace::CandidateView| read_size((c.path, entries[c.index].content)),
        ),
    decreases chosen.len(),
{
    if chosen.len() > 0 {
        lemma_total_of_reads(chosen.drop_last(), entries);
        assert(plan::reads(chosen, entries).drop_last() =~= plan::reads(
            chosen.drop_last(),
            entries,
        ));
    }
}

proof fn lemma_candidates_size(
    entries: Seq<workspace::EntryView>,
    priorities: Seq<Option<int>>,
    n: int,
)
    requires
        0 <= n <= entries.len(),
        priorities.len() == entries.len(),
    ensures
        256 + order::total(
            workspace::candidates(entries.take(n), priorities.take(n)),
            |c: workspace::CandidateView| read_size((c.path, entries[c.index].content)),
        ) <= entries_size(entries.take(n)),
    decreases n,
{
    let f = |c: workspace::CandidateView| read_size((c.path, entries[c.index].content));
    if n > 0 {
        lemma_candidates_size(entries, priorities, n - 1);
        assert(entries.take(n).drop_last() =~= entries.take(n - 1));
        assert(priorities.take(n).drop_last() =~= priorities.take(n - 1));
        let before = workspace::candidates(entries.take(n - 1), priorities.take(n - 1));
        let all = workspace::candidates(entries.take(n), priorities.take(n));
        if all != before {
            assert(all.drop_last() =~= before);
            assert(f(all.last()) == entry_size(entries[n - 1]));
        }
    }
}

/// The messages of a plan are no larger than everything in the workspace.
pub proof fn messages_fit_in_workspace_size(
    ws: workspace::WorkspaceView,
    priorities: Seq<Option<int>>,
    max_bytes: int,
)
    requires
        priorities.len() == ws.entries.len(),
    ensures
        plan::collected(ws, priorities, max_bytes) matches Some(p) ==> message_chars(p.files)
            <= entries_size(ws.entries),
{
    let leq = |a: workspace::CandidateView, b: workspace::CandidateView|
        workspace::read_before(a, b);
    let f = |c: workspace::CandidateView| read_size((c.path, ws.entries[c.index].content));
    let found = workspace::candidates(ws.entries, priorities);
    let chosen = workspace::ranked(ws.entries, priorities);
    workspace::read_before_is_total();
    found.lemma_sort_by_ensures(leq);
    order::lemma_same_values_total(chosen, found, f);
    lemma_total_of_reads(chosen, ws.entries);
    lemma_candidates_size(ws.entries, priorities, ws.entries.len() as int);
    assert(ws.entries.take(ws.entries.len() as int) =~= ws.entries);
    assert(priorities.take(ws.entries.len() as int) =~= priorities);
    lemma_plan_size(plan::reads(chosen, ws.entries), max_bytes);
}

proof fn lemma_sums_grow(files: Seq<(Seq<char>, Seq<char>)>, n: int)
    requires
        0 <= n <= files.len(),
    ensures
        message_chars(files.take(n)) <= message_chars(files),
        content_tokens(files.take(n)) * 4 <= message_chars(files.take(n)),
        forall|i: int|
            0 <= i < n ==> text::byte_size((#[trigger] files[i]).0) + 352 <= message_chars(files),
    decreases files.len() - n,
{
    lemma_content_within(files.take(n));
    if n == files.len() {
        assert(files.take(n) =~= files);
        assert forall|i: int| 0 <= i < n implies text::byte_size((#[trigger] files[i]).0) + 352
            <= message_chars(files) by {
            lemma_path_within(files, i);
        }
    } else {
        lemma_sums_grow(files, n + 1);
        assert(files.take(n + 1).drop_last() =~= files.take(n));
    }
}

proof fn lemma_content_within(files: Seq<(Seq<char>, Seq<char>)>)
    ensures
        content_tokens(files) * 4 <= message_chars(files),
        message_chars(files) >= 256,
    decreases files.len(),
{
    if files.len() > 0 {
        lemma_content_within(files.drop_last());
    }
}

proof fn lemma_path_within(files: Seq<(Seq<char>, Seq<char>)>, i: int)
    requires
        0 <= i < files.len(),
    ensures
        text::byte_size(files[i].0) + 352 <= message_chars(files),
    decreases files.len(),
{
    lemma_content_within(files.drop_last());
    if i < files.len() - 1 {
        lemma_path_within(files.drop_last(), i);
        assert(files.drop_last()[i] == files[i]);
    }
}

proof fn lemma_width_covers(files: Seq<(Seq<char>, Seq<char>)>)
    ensures
        column_width(files) >= 8,
        forall|i: int|
            0 <= i < files.len() ==> text::byte_size((#[trigger] files[i]).0) + 2
                <= column_width(files),
        column_width(files) + 350 <= message_chars(files) || column_width(files) == 8,
    decreases files.len(),
{
    lemma_content_within(files);
    if files.len() > 0 {
        let fewer = files.drop_last();
        lemma_width_covers(fewer);
        lemma_content_within(fewer);
        assert forall|i: int| 0 <= i < files.len() implies text::byte_size(
            (#[trigger] files[i]).0,
        ) + 2 <= column_width(files) by {
            if i < fewer.len() {
                assert(fewer[i] == files[i]);
            }
        }
    }
}

fn push_spaces(s: &mut String, n: usize)
    ensures
        final(s)@ == old(s)@ + spaces(n as int),
{
    let mut i: usize = 0;
    assert(s@ =~= old(s)@ + spaces(0));
    while i < n
        invariant
            i <= n,
            s@ == old(s)@ + spaces(i as int),
        decreases n - i,
    {
        s.push(' ');
        i += 1;
        assert(s@ =~= old(s)@ + spaces(i as int));
    }
}

/// The report of the estimate for a plan.
pub fn make_estimate(root: &str, plan: &InjectPlan, max_tokens: usize) -> (r: String)
    requires
        plan.wf(),
        message_chars(plan@.files) <= usize::MAX,
    ensures
        r@ == estimate_text(root@, plan@, max_tokens),
{
    let ghost files = plan@.files;
    let kb: usize = plan.total_bytes / 1024;
    let mut total_chars: usize = 256;
    let mut max_path_len: usize = 8;
    let mut content_sum: usize = 0;
    let mut i: usize = 0;
    assert(files.take(0) =~= Seq::empty());
    while i < plan.file_tokens.len()
        invariant
            plan.wf(),
            files == plan@.files,
            message_chars(files) <= usize::MAX,
            i <= plan.file_tokens@.len(),
            total_chars == message_chars(files.take(i as int)),
            content_sum == content_tokens(files.take(i as int)),
            max_path_len == column_width(files.take(i as int)),
        decreases plan.file_tokens@.len() - i,
    {
        let len: usize = byte_len(plan.file_tokens[i].0.as_str());
        let tokens: usize = plan.file_tokens[i].1;
        proof {
            assert(files.take(i + 1).drop_last() =~= files.take(i as int));
            assert(files.take(i + 1).last() == files[i as int]);
            assert(files[i as int].0 == plan.file_tokens@[i as int].0@);
            assert(files[i as int].1 == plan.files@[i as int].1@);
            assert(plan.file_tokens@[i as int].1 == plan::token_estimate(files[i as int].1));
            lemma_sums_grow(files, i + 1);
        }
        total_chars = total_chars + (len + 64);
        total_chars = total_chars + (tokens * 4 + 32);
        content_sum = content_sum + tokens;
        if len + 2 > max_path_len {
            max_path_len = len + 2;
        }
        i += 1;
    }
    assert(files.take(files.len() as int) =~= files);
    let token_estimate: usize = total_chars / 4 + if total_chars % 4 == 0 {
        0usize
    } else {
        1usize
    };
    let framing_tokens: usize = if token_estimate > content_sum {
        token_estimate - content_sum
    } else {
        0
    };
    let ghost width = column_width(files);
    let mut list = String::new();
    let mut j: usize = 0;
    while j < plan.file_tokens.len()
        invariant
            plan.wf(),
            files == plan@.files,
            message_chars(files) <= usize::MAX,
            width == column_width(files),
            width == max_path_len,
            j <= plan.file_tokens@.len(),
            list@ == breakdown(files.take(j as int), width),
        decreases plan.file_tokens@.len() - j,
    {
        let len: usize = byte_len(plan.file_tokens[j].0.as_str());
        proof {
            assert(files.take(j + 1).drop_last() =~= files.take(j as int));
            assert(files.take(j + 1).last() == files[j as int]);
            assert(files[j as int].0 == plan.file_tokens@[j as int].0@);
            assert(files[j as int].1 == plan.files@[j as int].1@);
            assert(plan.file_tokens@[j as int].1 == plan::token_estimate(files[j as int].1));
            lemma_width_covers(files);
            lemma_sums_grow(files, j + 1);
        }
        list.append("  `");
        list.append(plan.file_tokens[j].0.as_str());
        list.append("`");
        push_spaces(&mut list, max_path_len - (len + 2) + 2);
        list.append("~");
        push_decimal(&mut list, plan.file_tokens[j].1);
        list.append(" tokens\n");
        j += 1;
    }
    let mut s = "Full Codes Token Estimate (as read_file tool calls)\nWorkspace: ".to_owned();
    s.append(root);
    s.append("\nBudget: ~");
    push_decimal(&mut s, max_tokens);
    s.append(" tokens\nFiles: ");
    push_decimal(&mut s, plan.file_count);
    s.append("\nContent size: ~");
    push_decimal(&mut s, kb);
    s.append(" KB\nEstimated tokens: ~");
    push_decimal(&mut s, token_estimate);
    s.append("  (~4 chars/token heuristic)\ncontent: ~");
    push_decimal(&mut s, content_sum);
    s.append("\nframing: ~");
    push_decimal(&mut s, framing_tokens);
    push_skipped_line(&mut s, plan.skipped_count);
    s.append("\n\nPer-file breakdown (priority order):\n");
    s.append(list.as_str());
    s
}

fn push_skipped_line(s: &mut String, skipped: usize)
    ensures
        final(s)@ == old(s)@ + skipped_line(skipped as int),
{
    if skipped > 0 {
        s.append("\nFiles skipped (budget): ");
        push_decimal(s, skipped);
    }
    assert(s@ =~= old(s)@ + skipped_line(skipped as int));
}

/// Estimates how many tokens the messages of an injection would take, without
/// changing the conversation.
///
/// The size of everything in the workspace must be in the range of `usize`.
/// Which paths the patterns with a backslash match depends on the platform; the
/// rest is the same function of the priorities for every outcome.
pub fn full_codes_tokens(app: &App, raw_arg: Option<String>) -> (r: CommandResult)
    requires
        countable(app@.workspace),
    ensures
        r.message is Some,
        r.action is None,
        exists|priorities: Seq<Option<int>>| #[trigger]
            plan::possible_priorities(app@.workspace, priorities) && r@ == estimated(
                app@,
                text::opt_text(raw_arg),
                plan::collected(
                    app@.workspace,
                    priorities,
                    byte_budget(app@, text::opt_text(raw_arg)),
                ),
            ),
        agentsee::all_portable(plan::workspace_rules(app@.workspace)) ==> r@ == estimated(
            app@,
            text::opt_text(raw_arg),
            plan::collected(
                app@.workspace,
                plan::workspace_priorities(app@.workspace),
                byte_budget(app@, text::opt_text(raw_arg)),
            ),
        ),
{
    let ghost ws = app@.workspace;
    let (max_tokens_override, _user_text) = parse_raw_arg(&raw_arg);
    let max_tokens: usize = match max_tokens_override {
        Some(n) => n,
        None => app.max_inject_tokens,
    };
    if app.workspace.lacks_agentsee() {
        proof {
            plan::own_priorities_are_possible(ws);
        }
        return CommandResult::message(NO_AGENTSEE_TO_ESTIMATE.to_owned());
    }
    let max_bytes: usize = tokens_to_bytes(max_tokens);
    let found = collect_project_files(&app.workspace, max_bytes);
    let ghost priorities = choose|priorities: Seq<Option<int>>| #[trigger]
        plan::possible_priorities(ws, priorities) && plan::plan_view(found) == plan::collected(
            ws,
            priorities,
            max_bytes as int,
        );
    proof {
        assert(plan::possible_priorities(ws, priorities));
        messages_fit_in_workspace_size(ws, priorities, max_bytes as int);
    }
    match found {
        None => CommandResult::message(NO_MATCH_TO_ESTIMATE.to_owned()),
        Some(plan) => CommandResult::message(
            make_estimate(app.workspace.root.as_str(), &plan, max_tokens),
        ),
    }
}

// ---------------------------------------------------------------------------
// Laws
// ---------------------------------------------------------------------------

/// Each file is injected as a pair of messages: the call that reads it, and
/// right after it the result of that call.
pub proof fn messages_come_in_pairs(files: Seq<(Seq<char>, Seq<char>)>)
    ensures
        file_messages(files).len() == 2 * files.len(),
        forall|i: int|
            0 <= i < files.len() ==> {
                &&& file_messages(files)[2 * i] == call_message(i as nat, (#[trigger] files[i]).0)
                &&& file_messages(files)[2 * i + 1] == result_message(i as nat, files[i].1)
            },
    decreases files.len(),
{
    if files.len() > 0 {
        let fewer = files.drop_last();
        messages_come_in_pairs(fewer);
        assert forall|i: int| 0 <= i < files.len() implies {
            &&& file_messages(files)[2 * i] == call_message(i as nat, (#[trigger] files[i]).0)
            &&& file_messages(files)[2 * i + 1] == result_message(i as nat, files[i].1)
        } by {
            if i < fewer.len() {
                assert(fewer[i] == files[i]);
                assert(file_messages(files)[2 * i] == file_messages(fewer)[2 * i]);
                assert(file_messages(files)[2 * i + 1] == file_messages(fewer)[2 * i + 1]);
            }
        }
    }
}

/// Each call of an injection has an id of its own.
pub proof fn tool_ids_are_distinct(i: nat, j: nat)
    requires
        i != j,
    ensures
        tool_id(i) != tool_id(j),
{
    if tool_id(i) == tool_id(j) {
        let n = "inj_"@.len() as int;
        assert(tool_id(i).skip(n) =~= number::decimal(i));
        assert(tool_id(j).skip(n) =~= number::decimal(j));
        number::decimal_is_injective(i, j);
    }
}

/// An injection only adds to the conversation and the transcript, and changes
/// neither the workspace nor the budget. Without a plan it changes nothing and
/// sends nothing.
pub proof fn injection_only_adds(
    app: conversation::AppView,
    arg: Option<Seq<char>>,
    found: Option<plan::PlanView>,
)
    ensures
        ({
            let (after, result) = injected(app, arg, found);
            &&& app.api_messages.is_prefix_of(after.api_messages)
            &&& app.history.is_prefix_of(after.history)
            &&& after.workspace == app.workspace
            &&& after.max_inject_tokens == app.max_inject_tokens
            &&& !app.workspace.has_agentsee || found is None ==> after == app && result.send is None
            &&& app.workspace.has_agentsee && found is Some ==> result.send is Some
        }),
{
    let (after, result) = injected(app, arg, found);
    assert(app.api_messages =~= after.api_messages.subrange(0, app.api_messages.len() as int));
    assert(app.history =~= after.history.subrange(0, app.history.len() as int));
}

/// The contents of an injection stay within the budget, at four bytes to a
/// token.
pub proof fn injection_stays_within_budget(
    app: conversation::AppView,
    arg: Option<Seq<char>>,
    priorities: Seq<Option<int>>,
)
    ensures
        plan::collected(app.workspace, priorities, byte_budget(app, arg)) matches Some(p)
            ==> p.total_bytes == plan::files_size(p.files) && p.total_bytes <= token_budget(
            app,
            arg,
        ) * 4,
{
    let chosen = workspace::ranked(app.workspace.entries, priorities);
    plan::plan_within_budget(
        plan::reads(chosen, app.workspace.entries),
        byte_budget(app, arg),
    );
}

/// The estimate splits into the tokens of the contents and those of the framing,
/// of which there are at least 64.
pub proof fn estimate_splits(files: Seq<(Seq<char>, Seq<char>)>)
    ensures
        content_tokens(files) + 64 <= message_tokens(files),
    decreases files.len(),
{
    lemma_framing(files);
}

proof fn lemma_framing(files: Seq<(Seq<char>, Seq<char>)>)
    ensures
        content_tokens(files) * 4 + 256 <= message_chars(files),
    decreases files.len(),
{
    if files.len() > 0 {
        lemma_framing(files.drop_last());
    }
}

/// The estimate only reports: it has a message for the user in every case, and
/// sends nothing.
pub proof fn estimate_only_reports(
    app: conversation::AppView,
    arg: Option<Seq<char>>,
    found: Option<plan::PlanView>,
)
    ensures
        estimated(app, arg, found).message is Some,
        estimated(app, arg, found).send is None,
{
}

/// The files that some messages carry: for each call its path, with the content
/// of the result that follows it.
pub open spec fn carried_files(
    messages: Seq<conversation::MessageView>,
) -> Seq<(Seq<char>, Seq<char>)> {
    Seq::new(
        messages.len() / 2,
        |i: int|
            (messages[2 * i].content[0]->path, messages[2 * i + 1].content[0]->ToolResult_content),
    )
}

/// The estimate reports the injection: with the same argument, the files of the
/// estimate are those that the messages of the injection carry, in the same
/// order, and both report the same number of files, the same size and the same
/// number of skipped files.
pub proof fn estimate_reports_the_injection(
    app: conversation::AppView,
    arg: Option<Seq<char>>,
    priorities: Seq<Option<int>>,
)
    requires
        app.workspace.has_agentsee,
        plan::collected(app.workspace, priorities, byte_budget(app, arg)) is Some,
    ensures
        ({
            let found = plan::collected(app.workspace, priorities, byte_budget(app, arg));
            let (after, result) = injected(app, arg, found);
            let files = carried_files(after.api_messages.skip(app.api_messages.len() as int));
            let p = plan::PlanView {
                files,
                total_bytes: plan::files_size(files),
                skipped: found->0.skipped,
            };
            &&& estimated(app, arg, found).message == Some(
                estimate_text(app.workspace.root, p, token_budget(app, arg)),
            )
            &&& result.message == Some(status_text(p, token_budget(app, arg)))
        }),
{
    let found = plan::collected(app.workspace, priorities, byte_budget(app, arg));
    let (after, result) = injected(app, arg, found);
    let sent = after.api_messages.skip(app.api_messages.len() as int);
    let files = found->0.files;
    assert(sent =~= file_messages(files));
    messages_come_in_pairs(files);
    assert forall|i: int| 0 <= i < files.len() implies #[trigger] carried_files(sent)[i]
        == files[i] by {
        assert(sent[2 * i] == call_message(i as nat, files[i].0));
        assert(sent[2 * i + 1] == result_message(i as nat, files[i].1));
    }
    assert(carried_files(sent) =~= files);
    injection_stays_within_budget(app, arg, priorities);
}

/// The text of the user never changes the estimate, be it the whole argument or
/// behind a budget.
pub proof fn user_text_does_not_change_the_estimate(
    app: conversation::AppView,
    text: Seq<char>,
    n: usize,
    priorities: Seq<Option<int>>,
)
    ensures
        ({
            let estimate = |arg: Option<Seq<char>>|
                estimated(
                    app,
                    arg,
                    plan::collected(app.workspace, priorities, byte_budget(app, arg)),
                );
            let budget = MAX_TOKENS_FLAG@ + " "@ + number::decimal(n as nat);
            &&& !MAX_TOKENS_FLAG@.is_prefix_of(text) ==> estimate(Some(text)) == estimate(None)
            &&& estimate(Some(budget + " "@ + text)) == estimate(Some(budget))
        }),
{
    let budget = MAX_TOKENS_FLAG@ + " "@ + number::decimal(n as nat);
    let none = Seq::<char>::empty();
    reveal_strlit(" ");
    assert((" "@ + text)[0] == ' ');
    budget_argument_reads_back(n, " "@ + text);
    budget_argument_reads_back(n, none);
    assert(budget + " "@ + text =~= budget + (" "@ + text));
    assert(budget + none =~= budget);
}

/// An argument with the flag in front and a number behind it sets the budget to
/// that number. What stands behind the number, trimmed, is the text of the user.
pub proof fn budget_argument_reads_back(n: usize, rest: Seq<char>)
    requires
        rest.len() > 0 ==> text::white_space(rest[0]),
    ensures
        ({
            let arg = MAX_TOKENS_FLAG@ + " "@ + number::decimal(n as nat) + rest;
            &&& parsed_arg(Some(arg)).0 == Some(n)
            &&& text::blank(rest) ==> parsed_arg(Some(arg)).1 is None
            &&& !text::blank(rest) ==> parsed_arg(Some(arg)).1 == Some(text::trim(rest))
        }),
{
    let digits = number::decimal(n as nat);
    let arg = MAX_TOKENS_FLAG@ + " "@ + digits + rest;
    let k = MAX_TOKENS_FLAG@.len() as int;
    reveal_strlit(" ");
    number::decimal_reads_back(n);
    number::lemma_decimal_digits(n as nat);
    assert(MAX_TOKENS_FLAG@ =~= arg.subrange(0, k));
    let behind = arg.skip(k);
    let word = digits + rest;
    assert(behind[0] == ' ');
    assert(behind.drop_first() =~= word);
    assert(word[0] == digits[0]);
    assert(!text::white_space(word[0]));
    assert(text::trim_start(word) == word);
    assert(text::trim_start(behind) == word);
    let m = digits.len() as int;
    assert forall|i: int| 0 <= i < m implies !text::white_space(#[trigger] word[i]) by {
        assert(word[i] == digits[i]);
    }
    if rest.len() > 0 {
        assert(word[m] == rest[0]);
    }
    lemma_word_length(word, m);
    assert(word.take(m) =~= digits);
    text::lemma_trim_empty_iff_blank(rest);
    if rest.len() > 0 {
        assert(word.skip(m + 1) =~= rest.drop_first());
        assert(text::trim(rest) == text::trim(rest.drop_first()));
    }
}

/// An argument without the flag in front is all text of the user.
pub proof fn argument_without_flag_is_user_text(arg: Seq<char>)
    requires
        !MAX_TOKENS_FLAG@.is_prefix_of(arg),
    ensures
        parsed_arg(Some(arg)) == (None::<usize>, Some(arg)),
{
}

/// A token is four bytes, up to the range of `usize`.
pub proof fn a_token_is_four_bytes(tokens: usize)
    ensures
        tokens * 4 <= usize::MAX ==> bytes_for_tokens(tokens) == tokens * 4,
        tokens * 4 > usize::MAX ==> bytes_for_tokens(tokens) == usize::MAX,
{
}

/// The budget of an injection, and of its estimate, is the number that the
/// argument sets, be it smaller or larger than that of the application, and that
/// of the application where the argument sets none. In bytes it is four times as
/// much, up to the range of `usize`.
pub proof fn the_argument_sets_the_budget(app: conversation::AppView, arg: Option<Seq<char>>)
    ensures
        parsed_arg(arg).0 matches Some(n) ==> token_budget(app, arg) == n,
        parsed_arg(arg).0 is None ==> token_budget(app, arg) == app.max_inject_tokens,
        token_budget(app, arg) * 4 <= usize::MAX ==> byte_budget(app, arg) == token_budget(app, arg)
            * 4,
        token_budget(app, arg) * 4 > usize::MAX ==> byte_budget(app, arg) == usize::MAX,
{
}

/// What an argument says: without the flag in front it is all text of the user.
/// Behind the flag, and any white space, the word up to the next white space is
/// read as a number, and what stands behind it, trimmed, is the text of the user
/// unless nothing is left. A flag alone says nothing.
pub proof fn argument_is_flag_number_and_text(
    space: Seq<char>,
    word: Seq<char>,
    rest: Seq<char>,
    arg: Seq<char>,
)
    requires
        forall|i: int| 0 <= i < space.len() ==> text::white_space(#[trigger] space[i]),
        forall|i: int| 0 <= i < word.len() ==> !text::white_space(#[trigger] word[i]),
        rest.len() > 0 ==> text::white_space(rest[0]),
        word.len() > 0,
    ensures
        ({
            let (tokens, user) = parsed_arg(Some("--max-tokens"@ + space + word + rest));
            &&& tokens == number::read_number(word)
            &&& text::trim(rest).len() > 0 ==> user == Some(text::trim(rest))
            &&& text::trim(rest).len() == 0 ==> user is None
        }),
        parsed_arg(Some("--max-tokens"@ + space)) == (None::<usize>, None::<Seq<char>>),
        parsed_arg(None) == (None::<usize>, None::<Seq<char>>),
        !"--max-tokens"@.is_prefix_of(arg) ==> parsed_arg(Some(arg)) == (None::<usize>, Some(arg)),
{
    let flag = "--max-tokens"@;
    let k = flag.len() as int;
    let full = flag + space + word + rest;
    assert(flag =~= full.subrange(0, k));
    let behind = full.skip(k);
    let tail = word + rest;
    assert(behind =~= space + tail);
    lemma_trim_leading(space, tail);
    assert(tail[0] == word[0]);
    assert(text::trim_start(tail) == tail);
    let m = word.len() as int;
    assert forall|i: int| 0 <= i < m implies !text::white_space(#[trigger] tail[i]) by {
        assert(tail[i] == word[i]);
    }
    if rest.len() > 0 {
        assert(tail[m] == rest[0]);
        assert(tail.skip(m + 1) =~= rest.drop_first());
        assert(text::trim(rest) == text::trim(rest.drop_first()));
    }
    lemma_word_length(tail, m);
    assert(tail.take(m) =~= word);
    let bare = flag + space;
    assert(flag =~= bare.subrange(0, k));
    assert(bare.skip(k) =~= space + Seq::<char>::empty());
    lemma_trim_leading(space, Seq::empty());
}

proof fn lemma_trim_leading(space: Seq<char>, tail: Seq<char>)
    requires
        forall|i: int| 0 <= i < space.len() ==> text::white_space(#[trigger] space[i]),
    ensures
        text::trim_start(space + tail) == text::trim_start(tail),
    decreases space.len(),
{
    if space.len() == 0 {
        assert(space + tail =~= tail);
    } else {
        let fewer = space.drop_first();
        assert forall|i: int| 0 <= i < fewer.len() implies text::white_space(
            #[trigger] fewer[i],
        ) by {
            assert(fewer[i] == space[i + 1]);
        }
        lemma_trim_leading(fewer, tail);
        assert((space + tail)[0] == space[0]);
        assert((space + tail).drop_first() =~= fewer + tail);
    }
}

/// Each file is read by a call of its own, and the result right behind the call
/// answers that call: it has the id of the call, and the content of the file
/// whose path the call names. This holds for any number of files.
pub proof fn every_result_answers_the_call_before_it(
    files: Seq<(Seq<char>, Seq<char>)>,
    i: int,
)
    requires
        0 <= i < files.len(),
    ensures
        ({
            let all = file_messages(files);
            let (call, result) = (all[2 * i], all[2 * i + 1]);
            &&& all.len() == 2 * files.len()
            &&& call.role == "assistant"@
            &&& result.role == "user"@
            &&& call.content.len() == 1
            &&& result.content.len() == 1
            &&& call.content[0] is ToolUse
            &&& result.content[0] is ToolResult
            &&& call.content[0]->name == "read_file"@
            &&& call.content[0]->path == files[i].0
            &&& result.content[0]->tool_use_id == call.content[0]->id
            &&& result.content[0]->ToolResult_content == files[i].1
            &&& result.content[0]->is_error is None
            &&& call.content[0]->id == "inj_"@ + number::decimal(i as nat)
        }),
{
    messages_come_in_pairs(files);
    assert(file_messages(files)[2 * i] == call_message(i as nat, files[i].0));
    assert(file_messages(files)[2 * i + 1] == result_message(i as nat, files[i].1));
}

/// No two calls of an injection have one id, for any number of files.
pub proof fn calls_have_ids_of_their_own(files: Seq<(Seq<char>, Seq<char>)>, i: int, j: int)
    requires
        0 <= i < files.len(),
        0 <= j < files.len(),
        i != j,
    ensures
        file_messages(files)[2 * i].content[0]->id != file_messages(files)[2 * j].content[0]->id,
{
    every_result_answers_the_call_before_it(files, i);
    every_result_answers_the_call_before_it(files, j);
    tool_ids_are_distinct(i as nat, j as nat);
    assert(tool_id(i as nat) == "inj_"@ + number::decimal(i as nat));
    assert(tool_id(j as nat) == "inj_"@ + number::decimal(j as nat));
}

/// An injection, given a plan, puts the messages of its files behind the
/// conversation and two cells behind the transcript, notes that the transcript
/// changed, and leaves the rest as it is. It tells its status, and sends the text
/// of the user, or the header where that text is missing or of white space alone.
pub proof fn what_an_injection_does(
    app: conversation::AppView,
    arg: Option<Seq<char>>,
    p: plan::PlanView,
)
    requires
        app.workspace.has_agentsee,
    ensures
        ({
            let (after, result) = injected(app, arg, Some(p));
            let header = header_text(app.workspace.root, p);
            let user = parsed_arg(arg).1;
            let said = user is Some && exists|i: int|
                0 <= i < user->0.len() && !text::white_space(#[trigger] user->0[i]);
            &&& after.api_messages == app.api_messages + file_messages(p.files)
            &&& after.history == app.history.push(header).push(summary_text(p))
            &&& after.history_updated
            &&& after.workspace == app.workspace
            &&& after.max_inject_tokens == app.max_inject_tokens
            &&& result.message == Some(status_text(p, token_budget(app, arg)))
            &&& said ==> result.send == user
            &&& !said ==> result.send == Some(header)
        }),
{
}

/// Without a `.agentsee` file, or without a plan, a command only says so.
pub proof fn without_a_plan_the_commands_say_so(
    app: conversation::AppView,
    arg: Option<Seq<char>>,
    found: Option<plan::PlanView>,
)
    ensures
        !app.workspace.has_agentsee ==> {
            &&& injected(app, arg, found).0 == app
            &&& injected(app, arg, found).1.message == Some(NO_AGENTSEE@)
            &&& injected(app, arg, found).1.send is None
            &&& estimated(app, arg, found).message == Some(NO_AGENTSEE_TO_ESTIMATE@)
        },
        app.workspace.has_agentsee && found is None ==> {
            &&& injected(app, arg, found).0 == app
            &&& injected(app, arg, found).1.message == Some(NO_MATCH@)
            &&& injected(app, arg, found).1.send is None
            &&& estimated(app, arg, found).message == Some(NO_MATCH_TO_ESTIMATE@)
        },
        app.workspace.has_agentsee && found is Some ==> estimated(app, arg, found).message == Some(
            estimate_text(app.workspace.root, found->0, token_budget(app, arg)),
        ),
{
}

/// The header, the status and the transcript name the number of files, the size
/// in whole kilobytes and the number of skipped files, where there are any.
pub proof fn reports_name_the_figures_of_the_plan(
    root: Seq<char>,
    p: plan::PlanView,
    max_tokens: usize,
)
    requires
        p.total_bytes >= 0,
        p.skipped >= 0,
    ensures
        ({
            let n = number::decimal(p.files.len());
            let kb = number::decimal((p.total_bytes / 1024) as nat);
            let skipped = " ("@ + number::decimal(p.skipped as nat)
                + " file(s) skipped due to size budget)"@;
            let note = if p.skipped > 0 {
                skipped
            } else {
                Seq::empty()
            };
            &&& header_text(root, p) == "## Full Project Code Injection\n\nWorkspace: "@ + root
                + "\nFiles injected: "@ + n + " (~"@ + kb + " KB total)"@ + note
                + "\n\nThe following files have been loaded via read_file calls and are now available in your context."@
            &&& status_text(p, max_tokens) == "Injected "@ + n + " files (~"@ + kb
                + " KB) into context as read_file calls (budget: ~"@ + number::decimal(
                (max_tokens / 1000) as nat,
            ) + "K tokens)"@ + note
            &&& summary_text(p) == "Injected "@ + n + " files as read_file calls:\n"@ + path_list(
                p.files,
            )
        }),
{
}

/// The list of paths has a line for each file, in their order: two spaces and
/// the path in backticks.
pub proof fn list_has_a_line_for_each_file(
    files: Seq<(Seq<char>, Seq<char>)>,
    file: (Seq<char>, Seq<char>),
)
    ensures
        path_list(Seq::empty()).len() == 0,
        path_list(files.push(file)) == path_list(files) + "  `"@ + file.0 + "`\n"@,
{
    assert(files.push(file).drop_last() =~= files);
}

/// The estimate of the messages: 256 characters for the header, and for each
/// file the bytes of its path, its content rounded up to whole tokens of four
/// characters, and 96 characters of framing. A token is four of these
/// characters, rounded up.
pub proof fn estimate_counts_header_paths_and_contents(
    files: Seq<(Seq<char>, Seq<char>)>,
    file: (Seq<char>, Seq<char>),
)
    ensures
        message_chars(Seq::empty()) == 256,
        content_tokens(Seq::empty()) == 0,
        message_chars(files.push(file)) == message_chars(files) + vstd::utf8::encode_utf8(
            file.0,
        ).len() + 4 * plan::token_estimate(file.1) + 96,
        content_tokens(files.push(file)) == content_tokens(files) + plan::token_estimate(file.1),
        message_chars(files) <= 4 * message_tokens(files) <= message_chars(files) + 3,
{
    assert(files.push(file).drop_last() =~= files);
}

/// The column of the paths is as wide as the widest path with its backticks, and
/// eight wide where none is wider.
pub proof fn column_holds_the_widest_path(files: Seq<(Seq<char>, Seq<char>)>)
    ensures
        column_width(files) >= 8,
        forall|i: int|
            0 <= i < files.len() ==> vstd::utf8::encode_utf8((#[trigger] files[i]).0).len() + 2
                <= column_width(files),
        column_width(files) == 8 || exists|i: int|
            0 <= i < files.len() && vstd::utf8::encode_utf8((#[trigger] files[i]).0).len() + 2
                == column_width(files),
    decreases files.len(),
{
    lemma_width_covers(files);
    assert forall|i: int| 0 <= i < files.len() implies vstd::utf8::encode_utf8(
        (#[trigger] files[i]).0,
    ).len() + 2 <= column_width(files) by {
        assert(text::byte_size(files[i].0) + 2 <= column_width(files));
    }
    if files.len() > 0 {
        let fewer = files.drop_last();
        column_holds_the_widest_path(fewer);
        if column_width(files) == column_width(fewer) {
            if column_width(fewer) != 8 {
                let i = choose|i: int|
                    0 <= i < fewer.len() && vstd::utf8::encode_utf8((#[trigger] fewer[i]).0).len()
                        + 2 == column_width(fewer);
                assert(files[i] == fewer[i]);
            }
        } else {
            assert(vstd::utf8::encode_utf8(files[files.len() - 1].0).len() + 2 == column_width(
                files,
            ));
        }
    }
}

/// The breakdown has a line for each file, in their order: its path in
/// backticks, padded to two columns behind the widest, and its tokens.
pub proof fn breakdown_has_a_line_for_each_file(
    files: Seq<(Seq<char>, Seq<char>)>,
    file: (Seq<char>, Seq<char>),
    width: int,
    padding: Seq<char>,
)
    requires
        padding.len() == width - vstd::utf8::encode_utf8(file.0).len(),
        forall|i: int| 0 <= i < padding.len() ==> #[trigger] padding[i] == ' ',
    ensures
        breakdown(Seq::empty(), width).len() == 0,
        breakdown(files.push(file), width) == breakdown(files, width) + "  `"@ + file.0 + "`"@
            + padding + "~"@ + number::decimal(plan::token_estimate(file.1)) + " tokens\n"@,
{
    assert(files.push(file).drop_last() =~= files);
    assert(padding =~= spaces(width - (text::byte_size(file.0) + 2) + 2));
}

/// The report of the estimate names the workspace, the budget, the number of
/// files, the size in whole kilobytes, the tokens in all, those of the contents
/// and the rest, the skipped files, where there are any, and the breakdown.
pub proof fn estimate_names_its_figures(
    root: Seq<char>,
    p: plan::PlanView,
    max_tokens: usize,
)
    requires
        p.total_bytes >= 0,
        p.skipped >= 0,
    ensures
        ({
            let all = message_tokens(p.files);
            let content = content_tokens(p.files);
            let skipped = if p.skipped > 0 {
                "\nFiles skipped (budget): "@ + number::decimal(p.skipped as nat)
            } else {
                Seq::empty()
            };
            &&& all >= content
            &&& estimate_text(root, p, max_tokens)
                == "Full Codes Token Estimate (as read_file tool calls)\nWorkspace: "@ + root
                + "\nBudget: ~"@ + number::decimal(max_tokens as nat) + " tokens\nFiles: "@
                + number::decimal(p.files.len()) + "\nContent size: ~"@ + number::decimal(
                (p.total_bytes / 1024) as nat,
            ) + " KB\nEstimated tokens: ~"@ + number::decimal(all)
                + "  (~4 chars/token heuristic)\ncontent: ~"@ + number::decimal(content)
                + "\nframing: ~"@ + number::decimal((all - content) as nat) + skipped
                + "\n\nPer-file breakdown (priority order):\n"@ + breakdown(
                p.files,
                column_width(p.files),
            )
        }),
{
    estimate_splits(p.files);
}

/// Whether a workspace can be estimated: the bytes of all paths and contents,
/// with 99 for each entry and 256 for the header, are in the range of `usize`.
pub proof fn countable_means_in_range(
    ws: workspace::WorkspaceView,
    entries: Seq<workspace::EntryView>,
    e: workspace::EntryView,
)
    ensures
        countable(ws) <==> entries_size(ws.entries) <= usize::MAX,
        entries_size(Seq::empty()) == 256,
        entries_size(entries.push(e)) == entries_size(entries) + 99 + vstd::utf8::encode_utf8(
            workspace::rel_path(e),
        ).len() + match e.content {
            Some(c) => vstd::utf8::encode_utf8(c).len(),
            None => 0,
        },
{
    assert(entries.push(e).drop_last() =~= entries);
}

} // verus!
