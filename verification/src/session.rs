//! The session controller: parses operator choices, normalizes extension
//! input, and dispatches one command at a time against the current index.
//! The index is a snapshot — only an explicit refresh replaces it, and no
//! other command observes filesystem changes.

use vstd::prelude::*;
use crate::index::ExtensionIndex;
use crate::index::build;
use crate::index::spec_index_of;
use crate::index::is_key_list;
use crate::index::is_summary;
use crate::paginate::Page;
use crate::paginate::paginate;
use crate::paginate::spec_pages;
use crate::deleter::DeleteOutcome;
use crate::deleter::delete_all;
use crate::deleter::outcome_path;
use crate::keys::lower;
use crate::keys::UPPER_A;
use crate::keys::UPPER_Z;
use crate::order::clone_bytes;

verus! {

/// How many paths one page shows.
pub const BATCH_SIZE: usize = 20;

/// One choice of the main menu.
#[derive(PartialEq, Eq, Structural, Clone, Copy, Debug)]
pub enum MainMenuOption {
    ViewCounts,
    BrowseFiles,
    DeleteFiles,
    ShowExtensions,
    Refresh,
    Exit,
}

/// The menu choice a trimmed input line denotes, if any.
pub open spec fn spec_parse_menu_choice(s: Seq<u8>) -> Option<MainMenuOption> {
    if s =~= seq![49u8] {
        Some(MainMenuOption::ViewCounts)
    } else if s =~= seq![50u8] {
        Some(MainMenuOption::BrowseFiles)
    } else if s =~= seq![51u8] {
        Some(MainMenuOption::DeleteFiles)
    } else if s =~= seq![52u8] {
        Some(MainMenuOption::ShowExtensions)
    } else if s =~= seq![53u8] {
        Some(MainMenuOption::Refresh)
    } else if s =~= seq![54u8] {
        Some(MainMenuOption::Exit)
    } else {
        None
    }
}

/// Parses a trimmed input line as a menu choice: the digits `1` to `6`;
/// anything else is rejected, never treated as an exit or a no-op.
pub fn parse_menu_choice(input: &Vec<u8>) -> (r: Option<MainMenuOption>)
    ensures
        r == spec_parse_menu_choice(input@),
{
    if input.len() != 1 {
        proof {
            assert(spec_parse_menu_choice(input@) is None);
        }
        return None;
    }
    let b = input[0];
    proof {
        assert(input@ =~= seq![input@[0]]);
    }
    if b == 49 {
        Some(MainMenuOption::ViewCounts)
    } else if b == 50 {
        Some(MainMenuOption::BrowseFiles)
    } else if b == 51 {
        Some(MainMenuOption::DeleteFiles)
    } else if b == 52 {
        Some(MainMenuOption::ShowExtensions)
    } else if b == 53 {
        Some(MainMenuOption::Refresh)
    } else if b == 54 {
        Some(MainMenuOption::Exit)
    } else {
        None
    }
}

/// ASCII whitespace, as console input carries it.
pub open spec fn is_space(b: u8) -> bool {
    b == 32 || b == 9 || b == 10 || b == 13
}

/// The input without leading whitespace.
pub open spec fn trim_front(s: Seq<u8>) -> Seq<u8>
    decreases s.len(),
{
    if s.len() > 0 && is_space(s.first()) {
        trim_front(s.drop_first())
    } else {
        s
    }
}

/// The input without trailing whitespace.
pub open spec fn trim_back(s: Seq<u8>) -> Seq<u8>
    decreases s.len(),
{
    if s.len() > 0 && is_space(s.last()) {
        trim_back(s.drop_last())
    } else {
        s
    }
}

/// The input without leading and trailing whitespace.
pub open spec fn trim_spec(s: Seq<u8>) -> Seq<u8> {
    trim_back(trim_front(s))
}

proof fn lemma_trim_front(s: Seq<u8>, lo: int)
    requires
        0 <= lo <= s.len(),
        forall|i: int| 0 <= i < lo ==> is_space(#[trigger] s[i]),
        lo < s.len() ==> !is_space(s[lo]),
    ensures
        trim_front(s) == s.skip(lo),
    decreases lo,
{
    if lo == 0 {
        assert(s.skip(0) =~= s);
    } else {
        assert(is_space(s.first()));
        lemma_trim_front(s.drop_first(), lo - 1);
        assert(s.drop_first() =~= s.skip(1));
        assert(s.skip(1).skip(lo - 1) =~= s.skip(lo));
    }
}

proof fn lemma_trim_back(s: Seq<u8>, hi: int)
    requires
        0 <= hi <= s.len(),
        forall|i: int| hi <= i < s.len() ==> is_space(#[trigger] s[i]),
        hi > 0 ==> !is_space(s[hi - 1]),
    ensures
        trim_back(s) == s.take(hi),
    decreases s.len() - hi,
{
    if hi == s.len() {
        if s.len() > 0 && is_space(s.last()) {
            lemma_trim_back(s.drop_last(), hi - 1);
            assert(s.drop_last() =~= s.take(s.len() - 1));
        } else {
            assert(s.take(hi) =~= s);
        }
    } else {
        assert(is_space(s.last()));
        lemma_trim_back(s.drop_last(), hi);
        assert(s.drop_last() =~= s.take(s.len() - 1));
        assert(s.take(s.len() - 1).take(hi) =~= s.take(hi));
    }
}

/// Normalizes an operator's extension input: whitespace trimmed away and
/// ASCII letters lower-cased, matching how keys are derived from paths.
pub fn normalize_extension_input(input: &Vec<u8>) -> (key: Vec<u8>)
    ensures
        key@ == lower(trim_spec(input@)),
{
    let n = input.len();
    let mut lo: usize = 0;
    while lo < n && (input[lo] == 32 || input[lo] == 9 || input[lo] == 10 || input[lo] == 13)
        invariant
            0 <= lo <= n,
            n == input@.len(),
            forall|i: int| 0 <= i < lo ==> is_space(#[trigger] input@[i]),
        decreases n - lo,
    {
        lo = lo + 1;
    }
    let mut hi: usize = n;
    while hi > lo && (input[hi - 1] == 32 || input[hi - 1] == 9 || input[hi - 1] == 10 || input[hi
        - 1] == 13)
        invariant
            lo <= hi <= n,
            n == input@.len(),
            forall|i: int| hi <= i < n ==> is_space(#[trigger] input@[i]),
        decreases hi,
    {
        hi = hi - 1;
    }
    proof {
        lemma_trim_front(input@, lo as int);
        let t = input@.skip(lo as int);
        lemma_trim_back(t, hi - lo as int);
        assert(t.take(hi - lo as int) =~= input@.subrange(lo as int, hi as int));
    }
    let mut key: Vec<u8> = Vec::new();
    let mut i: usize = lo;
    while i < hi
        invariant
            lo <= i <= hi <= n,
            n == input@.len(),
            key@ =~= lower(input@.subrange(lo as int, i as int)),
        decreases hi - i,
    {
        let b = input[i];
        let lb = if UPPER_A <= b && b <= UPPER_Z {
            b + 32
        } else {
            b
        };
        key.push(lb);
        proof {
            assert(input@.subrange(lo as int, i + 1).drop_last() =~= input@.subrange(
                lo as int,
                i as int,
            ));
            assert(key@ =~= lower(input@.subrange(lo as int, i + 1)));
        }
        i = i + 1;
    }
    key
}

/// How many pages a browsing session shows, out of `total`, when the
/// operator answers the prompts with `continues`: every page up to and
/// including the first page without a successor, or the first one after
/// which the operator declines (or stops answering).
pub open spec fn spec_shown_count(total: int, continues: Seq<bool>) -> int
    decreases total,
{
    if total <= 0 {
        0
    } else if total == 1 {
        1
    } else if continues.len() > 0 && continues.first() {
        1 + spec_shown_count(total - 1, continues.drop_first())
    } else {
        1
    }
}

proof fn lemma_shown_count(total: int, continues: Seq<bool>, c: int)
    requires
        1 <= c <= total,
        c > 1 ==> c - 1 <= continues.len(),
        forall|j: int| 0 <= j < c - 1 ==> #[trigger] continues[j],
        c == total || c - 1 >= continues.len() || !continues[c - 1],
    ensures
        spec_shown_count(total, continues) == c,
    decreases c,
{
    if c == 1 {
    } else {
        assert(continues[0]);
        assert(1 < total && 0 < continues.len());
        assert forall|j: int| 0 <= j < c - 2 implies #[trigger] continues.drop_first()[j] by {
            assert(continues[j + 1]);
            assert(continues.drop_first()[j] == continues[j + 1]);
        }
        if !(c - 1 == total - 1 || c - 2 >= continues.drop_first().len()) {
            assert(continues.drop_first()[c - 2] == continues[c - 1]);
        }
        lemma_shown_count(total - 1, continues.drop_first(), c - 1);
    }
}

/// The pages a browsing session shows for the bucket: a prefix of the full
/// page list, cut off by the first short page or the operator's refusal.
pub open spec fn browse_ok(
    bucket: Seq<Seq<u8>>,
    page_size: int,
    continues: Seq<bool>,
    shown: Seq<Page>,
) -> bool {
    let all = spec_pages(bucket, page_size as nat);
    &&& shown.len() == spec_shown_count(all.len() as int, continues)
    &&& forall|i: int|
        0 <= i < shown.len() ==> (#[trigger] shown[i].items.deep_view()) == all[i]
            && shown[i].has_more == (i + 1 < all.len())
}

/// Pages through the paths of `key`, showing pages in order until the first
/// page without a successor, or until the operator declines to continue.
/// `None` reports an extension the index does not know.
pub fn browse_files_by_extension(
    index: &ExtensionIndex,
    key: &Vec<u8>,
    page_size: usize,
    continues: &Vec<bool>,
) -> (r: Option<Vec<Page>>)
    requires
        index.wf(),
        page_size >= 1,
    ensures
        match r {
            Some(shown) => index@.dom().contains(key@) && browse_ok(
                index@[key@],
                page_size as int,
                continues@,
                shown@,
            ),
            None => !index@.dom().contains(key@),
        },
{
    if !index.contains_key(key) {
        return None;
    }
    let bucket = index.paths(key);
    let ghost all = spec_pages(bucket.deep_view(), page_size as nat);
    let mut pages = paginate(&bucket, page_size);
    let total = pages.len();
    if total == 0 {
        let shown: Vec<Page> = Vec::new();
        proof {
            assert(spec_shown_count(0, continues@) == 0);
        }
        return Some(shown);
    }
    let mut c: usize = 1;
    while c < total && pages[c - 1].has_more && c - 1 < continues.len() && continues[c - 1]
        invariant
            1 <= c <= total,
            total == pages@.len(),
            c > 1 ==> c - 1 <= continues@.len(),
            forall|j: int| 0 <= j < c - 1 ==> #[trigger] continues@[j],
            forall|i: int|
                0 <= i < pages@.len() ==> (#[trigger] pages@[i].has_more) == (i + 1
                    < pages@.len()),
        decreases total - c,
    {
        proof {
            assert(pages@[c - 1].has_more == (c < total));
        }
        c = c + 1;
    }
    let ghost full = pages@;
    proof {
        if c < total {
            assert(pages@[c - 1].has_more == (c < total));
        }
        lemma_shown_count(total as int, continues@, c as int);
    }
    pages.truncate(c);
    proof {
        assert(pages@ =~= full.subrange(0, c as int));
        assert forall|i: int| 0 <= i < pages@.len() implies (#[trigger] pages@[i].items.deep_view())
            == all[i] && pages@[i].has_more == (i + 1 < all.len()) by {
            assert(pages@[i] == full[i]);
        }
    }
    Some(pages)
}

/// One operator command, with everything the operator supplied for it: the
/// normalized extension for browsing or deleting, the answers to the
/// "more?" prompts, and the freshly scanned entries for a refresh.
pub enum Command {
    ViewCounts,
    BrowseFiles { key: Vec<u8>, continues: Vec<bool> },
    DeleteFiles { key: Vec<u8> },
    ShowExtensions,
    Refresh { entries: Vec<Vec<u8>> },
    Exit,
}

/// What one command reports back for display.
pub enum Report {
    Counts { lines: Vec<(Vec<u8>, usize)> },
    Extensions { keys: Vec<Vec<u8>> },
    Pages { shown: Vec<Page> },
    UnknownExtension { key: Vec<u8> },
    Outcomes { results: Vec<DeleteOutcome> },
    Refreshed,
    Exited,
}

/// What one command does to the index: only a refresh replaces it, by the
/// index of the fresh entry list; every other command leaves it untouched.
pub open spec fn spec_step_index(
    m: Map<Seq<u8>, Seq<Seq<u8>>>,
    cmd: Command,
) -> Map<Seq<u8>, Seq<Seq<u8>>> {
    match cmd {
        Command::Refresh { entries } => spec_index_of(entries.deep_view()),
        _ => m,
    }
}

/// One outcome per path of the chosen bucket, in the bucket's order.
pub open spec fn outcomes_ok(
    m: Map<Seq<u8>, Seq<Seq<u8>>>,
    key: Seq<u8>,
    results: Seq<DeleteOutcome>,
) -> bool {
    let paths = if m.dom().contains(key) {
        m[key]
    } else {
        Seq::empty()
    };
    &&& results.len() == paths.len()
    &&& forall|i: int| 0 <= i < results.len() ==> outcome_path(#[trigger] results[i]) == paths[i]
}

/// Whether `rep` is a correct answer to `cmd` against index state `m`.
pub open spec fn report_ok(
    m: Map<Seq<u8>, Seq<Seq<u8>>>,
    page_size: int,
    cmd: Command,
    rep: Report,
) -> bool {
    match cmd {
        Command::ViewCounts => rep matches Report::Counts { lines } && is_summary(m, lines@),
        Command::ShowExtensions => rep matches Report::Extensions { keys } && is_key_list(
            m,
            keys.deep_view(),
        ),
        Command::BrowseFiles { key, continues } => if m.dom().contains(key@) {
            rep matches Report::Pages { shown } && browse_ok(m[key@], page_size, continues@, shown@)
        } else {
            rep matches Report::UnknownExtension { key: missing } && missing@ == key@
        },
        Command::DeleteFiles { key } => rep matches Report::Outcomes { results } && outcomes_ok(
            m,
            key@,
            results@,
        ),
        Command::Refresh { entries: _ } => rep is Refreshed,
        Command::Exit => rep is Exited,
    }
}

/// Executes one operator command against the current index: the report says
/// what to display, the flag whether the session ends.  Only a refresh
/// changes the index.
pub fn step(index: &mut ExtensionIndex, cmd: &Command, page_size: usize) -> (r: (Report, bool))
    requires
        old(index).wf(),
        page_size >= 1,
    ensures
        final(index).wf(),
        final(index)@ == spec_step_index(old(index)@, *cmd),
        report_ok(old(index)@, page_size as int, *cmd, r.0),
        r.1 == (*cmd is Exit),
{
    match cmd {
        Command::ViewCounts => (Report::Counts { lines: index.summary() }, false),
        Command::ShowExtensions => (Report::Extensions { keys: index.keys() }, false),
        Command::BrowseFiles { key, continues } => {
            match browse_files_by_extension(index, key, page_size, continues) {
                Some(shown) => (Report::Pages { shown }, false),
                None => (Report::UnknownExtension { key: clone_bytes(key) }, false),
            }
        },
        Command::DeleteFiles { key } => {
            let ps = index.paths(key);
            let results = delete_all(&ps);
            proof {
                assert forall|i: int| 0 <= i < results@.len() implies outcome_path(
                    #[trigger] results@[i],
                ) == ps.deep_view()[i] by {}
            }
            (Report::Outcomes { results }, false)
        },
        Command::Refresh { entries } => {
            *index = build(entries);
            (Report::Refreshed, false)
        },
        Command::Exit => (Report::Exited, true),
    }
}

/// How many leading commands a session consumes: everything up to and
/// including the first exit command, or all of them when none exits.
pub open spec fn spec_run_len(cmds: Seq<Command>) -> int
    decreases cmds.len(),
{
    if cmds.len() == 0 {
        0
    } else if cmds.first() is Exit {
        1
    } else {
        1 + spec_run_len(cmds.drop_first())
    }
}

/// The index state after running `cmds` from state `m`.
pub open spec fn spec_run_index(
    m: Map<Seq<u8>, Seq<Seq<u8>>>,
    cmds: Seq<Command>,
) -> Map<Seq<u8>, Seq<Seq<u8>>>
    decreases cmds.len(),
{
    if cmds.len() == 0 {
        m
    } else {
        spec_run_index(spec_step_index(m, cmds.first()), cmds.drop_first())
    }
}

proof fn lemma_run_index_snoc(m: Map<Seq<u8>, Seq<Seq<u8>>>, cmds: Seq<Command>, c: Command)
    ensures
        spec_run_index(m, cmds.push(c)) == spec_step_index(spec_run_index(m, cmds), c),
    decreases cmds.len(),
{
    let p = cmds.push(c);
    if cmds.len() == 0 {
        assert(p.drop_first() =~= Seq::<Command>::empty());
        assert(p.first() == c);
        assert(spec_run_index(m, p) == spec_run_index(spec_step_index(m, c), p.drop_first()));
        assert(spec_run_index(spec_step_index(m, c), p.drop_first()) == spec_step_index(m, c));
        assert(spec_run_index(m, cmds) == m);
    } else {
        assert(p.first() == cmds.first());
        assert(p.drop_first() =~= cmds.drop_first().push(c));
        let m1 = spec_step_index(m, cmds.first());
        lemma_run_index_snoc(m1, cmds.drop_first(), c);
        assert(spec_run_index(m, p) == spec_run_index(m1, p.drop_first()));
        assert(spec_run_index(m1, p.drop_first()) == spec_run_index(
            m1,
            cmds.drop_first().push(c),
        ));
        assert(spec_run_index(m, cmds) == spec_run_index(m1, cmds.drop_first()));
    }
}

proof fn lemma_run_len_char(cmds: Seq<Command>, i: int)
    requires
        0 <= i <= cmds.len(),
        forall|j: int| 0 <= j < i ==> !((#[trigger] cmds[j]) is Exit),
        i < cmds.len() ==> cmds[i] is Exit,
    ensures
        spec_run_len(cmds) == if i < cmds.len() {
            i + 1
        } else {
            cmds.len() as int
        },
    decreases i,
{
    if cmds.len() == 0 {
    } else if i == 0 {
        if cmds.len() > 0 && !(cmds.first() is Exit) {
            lemma_run_len_char(cmds.drop_first(), 0);
        }
    } else {
        assert(!(cmds[0] is Exit));
        assert forall|j: int| 0 <= j < i - 1 implies !((#[trigger] cmds.drop_first()[j])
            is Exit) by {
            assert(cmds.drop_first()[j] == cmds[j + 1]);
        }
        if i < cmds.len() {
            assert(cmds.drop_first()[i - 1] == cmds[i]);
        }
        lemma_run_len_char(cmds.drop_first(), i - 1);
    }
}

/// Runs operator commands in order until the first exit command (or until
/// they run out), answering each against the index as it stood when the
/// command arrived.  Only refresh commands replace the index; every report
/// in between answers from the unchanged snapshot.
pub fn main_menu_loop(index: &mut ExtensionIndex, commands: &Vec<Command>, page_size: usize) -> (reports: Vec<Report>)
    requires
        old(index).wf(),
        page_size >= 1,
    ensures
        final(index).wf(),
        reports@.len() == spec_run_len(commands@),
        final(index)@ == spec_run_index(old(index)@, commands@.take(spec_run_len(commands@))),
        forall|j: int|
            0 <= j < reports@.len() ==> report_ok(
                spec_run_index(old(index)@, commands@.take(j)),
                page_size as int,
                commands@[j],
                #[trigger] reports@[j],
            ),
{
    let ghost m0 = old(index)@;
    let mut reports: Vec<Report> = Vec::new();
    let mut i: usize = 0;
    let mut done = false;
    proof {
        assert(commands@.take(0) =~= Seq::<Command>::empty());
    }
    while !done && i < commands.len()
        invariant
            0 <= i <= commands@.len(),
            index.wf(),
            page_size >= 1,
            reports@.len() == i,
            index@ == spec_run_index(m0, commands@.take(i as int)),
            forall|j: int|
                0 <= j < i ==> report_ok(
                    spec_run_index(m0, commands@.take(j)),
                    page_size as int,
                    commands@[j],
                    #[trigger] reports@[j],
                ),
            !done ==> forall|j: int| 0 <= j < i ==> !((#[trigger] commands@[j]) is Exit),
            done ==> i >= 1 && commands@[i - 1] is Exit && (forall|j: int|
                0 <= j < i - 1 ==> !((#[trigger] commands@[j]) is Exit)),
        decreases commands@.len() - i,
    {
        let (rep, ex) = step(index, &commands[i], page_size);
        reports.push(rep);
        proof {
            assert(commands@.take(i + 1) =~= commands@.take(i as int).push(commands@[i as int]));
            lemma_run_index_snoc(m0, commands@.take(i as int), commands@[i as int]);
        }
        done = ex;
        i = i + 1;
    }
    proof {
        if done {
            lemma_run_len_char(commands@, i - 1);
        } else {
            lemma_run_len_char(commands@, i as int);
        }
    }
    reports
}

/// Snapshot isolation: no command but a refresh changes the index, and a
/// refresh replaces it by exactly the index of the freshly scanned entries,
/// so a change on disk shows up with the refresh that follows it and never
/// before.
pub proof fn lemma_snapshot_isolation(m: Map<Seq<u8>, Seq<Seq<u8>>>, cmd: Command)
    ensures
        !(cmd is Refresh) ==> spec_step_index(m, cmd) == m,
        cmd matches Command::Refresh { entries } ==> spec_step_index(m, cmd) == spec_index_of(
            entries.deep_view(),
        ),
{
}

} // verus!
