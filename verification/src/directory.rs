//! The directory-traversal engine, over a pure model of the tree.
//!
//! A [`LogTree`] describes what the file system hands back while a run
//! walks it: each directory lists its files and the subdirectories found
//! inside it — subdirectories are thus discovered only when their parent is
//! visited. [`collect_files`] drains the whole tree, skipping excluded
//! names, and yields every reachable file exactly once: its result equals,
//! by contract, the recursively defined job list of the tree. A
//! [`LogParser`] then handles each file and folds all per-file results in
//! one batch, so the fold step runs exactly once per traversal. The
//! parallel driver around the real file system mirrors this model and
//! performs the reads.

use vstd::prelude::*;
use vstd::string::*;

verus! {

/// One directory entry: a subdirectory (by index into the tree's node
/// table) or a file with its content.
pub enum TreeEntry {
    Dir { name: String, node: usize },
    File { name: String, content: String },
}

/// One directory: its name and its entries in listing order.
pub struct DirNode {
    pub name: String,
    pub entries: Vec<TreeEntry>,
}

/// A directory tree: a node table and the root directories of the run.
pub struct LogTree {
    pub nodes: Vec<DirNode>,
    pub roots: Vec<usize>,
}

/// One unit of work: the holding directory's name, the file's name, and
/// the file's text.
pub struct FileJob {
    pub dir: String,
    pub file: String,
    pub content: String,
}

/// A job at the specification level.
pub ghost struct SpecJob {
    pub dir: Seq<char>,
    pub file: Seq<char>,
    pub content: Seq<char>,
}

impl View for FileJob {
    type V = SpecJob;

    open spec fn view(&self) -> SpecJob {
        SpecJob { dir: self.dir@, file: self.file@, content: self.content@ }
    }
}

/// Whether a name is excluded: it holds the exclusion substring.
pub open spec fn spec_excluded(name: Seq<char>, excl: Option<Seq<char>>) -> bool {
    match excl {
        None => false,
        Some(e) => crate::text::contains_seq(name, e),
    }
}

/// Every root and every subdirectory reference stays inside the node
/// table, and subdirectories always sit later in the table than the
/// directory that lists them, as a tree laid out in discovery order does.
pub open spec fn tree_wf(t: LogTree) -> bool {
    &&& forall|j: int| 0 <= j < t.roots@.len() ==> (#[trigger] t.roots@[j]) < t.nodes@.len()
    &&& forall|i: int, k: int|
        0 <= i < t.nodes@.len() && 0 <= k < t.nodes@[i].entries@.len() ==> match #[trigger] t.nodes@[i].entries@[k] {
            TreeEntry::Dir { name, node } => i < node < t.nodes@.len(),
            TreeEntry::File { name, content } => true,
        }
}

/// The jobs of the entries of node `i`, from entry `k` on.
pub open spec fn spec_entries_jobs(t: LogTree, i: int, k: int, excl: Option<Seq<char>>) -> Seq<
    SpecJob,
>
    decreases t.nodes@.len() - i, t.nodes@[i].entries@.len() - k,
    when tree_wf(t) && 0 <= i < t.nodes@.len() && 0 <= k <= t.nodes@[i].entries@.len()
{
    if k == t.nodes@[i].entries@.len() {
        Seq::empty()
    } else {
        let head = match t.nodes@[i].entries@[k] {
            TreeEntry::File { name, content } => {
                if spec_excluded(name@, excl) {
                    Seq::<SpecJob>::empty()
                } else {
                    seq![SpecJob { dir: t.nodes@[i].name@, file: name@, content: content@ }]
                }
            },
            TreeEntry::Dir { name, node } => {
                if spec_excluded(name@, excl) {
                    Seq::<SpecJob>::empty()
                } else {
                    spec_node_jobs(t, node as int, excl)
                }
            },
        };
        head + spec_entries_jobs(t, i, k + 1, excl)
    }
}

/// The jobs of the whole subtree rooted at node `i`.
pub open spec fn spec_node_jobs(t: LogTree, i: int, excl: Option<Seq<char>>) -> Seq<SpecJob>
    decreases t.nodes@.len() - i, t.nodes@[i].entries@.len() + 1,
    when tree_wf(t) && 0 <= i < t.nodes@.len()
{
    spec_entries_jobs(t, i, 0, excl)
}

/// The jobs of the roots, from root `k` on.
pub open spec fn spec_roots_jobs(t: LogTree, k: int, excl: Option<Seq<char>>) -> Seq<SpecJob>
    decreases t.roots@.len() - k,
    when tree_wf(t) && 0 <= k <= t.roots@.len()
{
    if k == t.roots@.len() {
        Seq::empty()
    } else {
        spec_node_jobs(t, t.roots@[k] as int, excl) + spec_roots_jobs(t, k + 1, excl)
    }
}

/// Every reachable, non-excluded file of the tree, in traversal order.
pub open spec fn spec_all_jobs(t: LogTree, excl: Option<Seq<char>>) -> Seq<SpecJob> {
    spec_roots_jobs(t, 0, excl)
}

/// The view of an exclusion option.
pub open spec fn excl_view(exclusion: Option<String>) -> Option<Seq<char>> {
    match exclusion {
        None => None,
        Some(e) => Some(e@),
    }
}

/// Whether a name holds the exclusion substring, decided executably.
fn is_excluded(name: &String, exclusion: &Option<Vec<char>>, excl: Ghost<Option<Seq<char>>>) -> (r: bool)
    requires
        match exclusion {
            Some(e) => excl@ == Some(e@),
            None => excl@ is None,
        },
    ensures
        r == spec_excluded(name@, excl@),
{
    match exclusion {
        None => false,
        Some(e) => {
            let nchars = crate::text::str_to_chars(name.as_str());
            crate::text::contains_chars(&nchars, e)
        },
    }
}

/// Collects the jobs of the subtree rooted at node `i`.
fn collect_node(
    t: &LogTree,
    i: usize,
    exclusion: &Option<Vec<char>>,
    excl: Ghost<Option<Seq<char>>>,
    out: &mut Vec<FileJob>,
)
    requires
        tree_wf(*t),
        i < t.nodes@.len(),
        match exclusion {
            Some(e) => excl@ == Some(e@),
            None => excl@ is None,
        },
    ensures
        final(out)@.map_values(|j: FileJob| j@) == old(out)@.map_values(|j: FileJob| j@)
            + spec_node_jobs(*t, i as int, excl@),
    decreases t.nodes@.len() - i,
{
    let ghost pre = out@.map_values(|j: FileJob| j@);
    let node = &t.nodes[i];
    let mut k: usize = 0;
    proof {
        assert(pre + spec_entries_jobs(*t, i as int, 0, excl@) =~= pre + spec_node_jobs(
            *t,
            i as int,
            excl@,
        ));
    }
    while k < node.entries.len()
        invariant
            tree_wf(*t),
            i < t.nodes@.len(),
            node == &t.nodes[i as int],
            k <= node.entries@.len(),
            match exclusion {
                Some(e) => excl@ == Some(e@),
                None => excl@ is None,
            },
            pre + spec_node_jobs(*t, i as int, excl@) == out@.map_values(|j: FileJob| j@)
                + spec_entries_jobs(*t, i as int, k as int, excl@),
        decreases node.entries@.len() - k,
    {
        let ghost cur = out@.map_values(|j: FileJob| j@);
        proof {
            assert(t.nodes@[i as int].entries@[k as int] == node.entries@[k as int]);
        }
        match &node.entries[k] {
            TreeEntry::File { name, content } => {
                if !is_excluded(name, exclusion, excl) {
                    let job = FileJob {
                        dir: node.name.clone(),
                        file: name.clone(),
                        content: content.clone(),
                    };
                    let ghost gj = job@;
                    out.push(job);
                    proof {
                        assert(out@.map_values(|j: FileJob| j@) =~= cur.push(gj));
                        assert(cur.push(gj) + spec_entries_jobs(*t, i as int, k + 1, excl@) =~= cur
                            + (seq![gj] + spec_entries_jobs(*t, i as int, k + 1, excl@)));
                    }
                } else {
                    proof {
                        assert(Seq::<SpecJob>::empty() + spec_entries_jobs(
                            *t,
                            i as int,
                            k + 1,
                            excl@,
                        ) =~= spec_entries_jobs(*t, i as int, k + 1, excl@));
                    }
                }
            },
            TreeEntry::Dir { name, node: child } => {
                if !is_excluded(name, exclusion, excl) {
                    let c = *child;
                    collect_node(t, c, exclusion, excl, out);
                    proof {
                        assert(cur + spec_node_jobs(*t, c as int, excl@) + spec_entries_jobs(
                            *t,
                            i as int,
                            k + 1,
                            excl@,
                        ) =~= cur + (spec_node_jobs(*t, c as int, excl@) + spec_entries_jobs(
                            *t,
                            i as int,
                            k + 1,
                            excl@,
                        )));
                    }
                } else {
                    proof {
                        assert(Seq::<SpecJob>::empty() + spec_entries_jobs(
                            *t,
                            i as int,
                            k + 1,
                            excl@,
                        ) =~= spec_entries_jobs(*t, i as int, k + 1, excl@));
                    }
                }
            },
        }
        k = k + 1;
    }
    proof {
        assert(spec_entries_jobs(*t, i as int, node.entries@.len() as int, excl@) =~= Seq::<
            SpecJob,
        >::empty());
        assert(out@.map_values(|j: FileJob| j@) + Seq::<SpecJob>::empty() =~= out@.map_values(
            |j: FileJob| j@,
        ));
    }
}

/// Drains the whole tree: every file under every reachable, non-excluded
/// directory appears exactly once, as the recursive job list says. This is
/// the complete input that one traversal hands to the fold step.
pub fn collect_files(t: &LogTree, exclusion: &Option<String>) -> (r: Vec<FileJob>)
    requires
        tree_wf(*t),
    ensures
        r@.map_values(|j: FileJob| j@) == spec_all_jobs(
            *t,
            match exclusion {
                Some(e) => Some(e@),
                None => None,
            },
        ),
{
    let ghost gexcl: Option<Seq<char>> = match exclusion {
        Some(e) => Some(e@),
        None => None,
    };
    let echars: Option<Vec<char>> = match exclusion {
        Some(e) => Some(crate::text::str_to_chars(e.as_str())),
        None => None,
    };
    let mut out: Vec<FileJob> = Vec::new();
    let mut k: usize = 0;
    proof {
        assert(out@.map_values(|j: FileJob| j@) =~= Seq::<SpecJob>::empty());
        assert(Seq::<SpecJob>::empty() + spec_roots_jobs(*t, 0, gexcl) =~= spec_roots_jobs(
            *t,
            0,
            gexcl,
        ));
    }
    while k < t.roots.len()
        invariant
            tree_wf(*t),
            k <= t.roots@.len(),
            match echars {
                Some(e) => gexcl == Some(e@),
                None => gexcl is None,
            },
            gexcl == match exclusion {
                Some(e) => Some(e@),
                None => None,
            },
            spec_all_jobs(*t, gexcl) == out@.map_values(|j: FileJob| j@) + spec_roots_jobs(
                *t,
                k as int,
                gexcl,
            ),
        decreases t.roots@.len() - k,
    {
        let ghost cur = out@.map_values(|j: FileJob| j@);
        let root = t.roots[k];
        collect_node(t, root, &echars, Ghost(gexcl), &mut out);
        proof {
            assert(cur + spec_node_jobs(*t, root as int, gexcl) + spec_roots_jobs(
                *t,
                k + 1,
                gexcl,
            ) =~= cur + (spec_node_jobs(*t, root as int, gexcl) + spec_roots_jobs(
                *t,
                k + 1,
                gexcl,
            )));
        }
        k = k + 1;
    }
    proof {
        assert(spec_roots_jobs(*t, t.roots@.len() as int, gexcl) =~= Seq::<SpecJob>::empty());
        assert(out@.map_values(|j: FileJob| j@) + Seq::<SpecJob>::empty() =~= out@.map_values(
            |j: FileJob| j@,
        ));
    }
    out
}

/// The per-file and fold capability that every analysis implements: how to
/// turn one log's text into a result, and how to fold the whole run's
/// results, exactly once, into its state. Each implementation also gives a
/// mathematical model of itself — what its state is, what one file does to
/// that state and yields, and what the single fold call does — and its two
/// methods are bound to that model, so a traversal can promise exactly
/// what a run computes.
pub trait LogParser<R>: Sized {
    /// The model of the parser's state.
    type VS;

    /// The model of one per-file result.
    type VR;

    /// The state a parser value stands for.
    spec fn state_model(self) -> Self::VS;

    /// The model of one returned result value.
    spec fn result_model(r: R) -> Self::VR;

    /// What handling one file does to the state, and the result it yields
    /// (`None` when the file is rejected and contributes nothing).
    spec fn on_file(s: Self::VS, content: Seq<char>, dir: Seq<char>, file: Seq<char>) -> (
        Self::VS,
        Option<Self::VR>,
    );

    /// What the single fold call does to the state, and whether it
    /// succeeds.
    spec fn on_fold(s: Self::VS, rs: Seq<Self::VR>) -> (Self::VS, bool);

    fn handle_log_file(&mut self, raw_json: &str, dir_name: &str, file_name: &str) -> (r: Result<
        R,
        crate::BattleToolsError,
    >)
        ensures
            ({
                let step = Self::on_file(
                    old(self).state_model(),
                    raw_json@,
                    dir_name@,
                    file_name@,
                );
                &&& final(self).state_model() == step.0
                &&& match r {
                    Ok(v) => step.1 == Some(Self::result_model(v)),
                    Err(_) => step.1 is None,
                }
            }),
    ;

    fn handle_results(&mut self, results: Vec<R>) -> (r: Result<(), crate::BattleToolsError>)
        ensures
            ({
                let step = Self::on_fold(
                    old(self).state_model(),
                    results@.map_values(|x: R| Self::result_model(x)),
                );
                &&& final(self).state_model() == step.0
                &&& (r is Ok <==> step.1)
            }),
    ;
}

/// The state and collected result models after handling every job in
/// order: rejected files contribute nothing, and the state threads through
/// from file to file.
pub open spec fn spec_run_files<T: LogParser<R>, R>(s: T::VS, jobs: Seq<SpecJob>) -> (
    T::VS,
    Seq<T::VR>,
)
    decreases jobs.len(),
{
    if jobs.len() == 0 {
        (s, Seq::empty())
    } else {
        let step = T::on_file(s, jobs[0].content, jobs[0].dir, jobs[0].file);
        let rest = spec_run_files::<T, R>(step.0, jobs.skip(1));
        (
            rest.0,
            match step.1 {
                Some(v) => seq![v] + rest.1,
                None => rest.1,
            },
        )
    }
}

/// Walks whole directory trees with any [`LogParser`]: the run handles
/// every reachable, non-excluded file exactly once and then folds all
/// collected results in one call.
pub trait ParallelDirectoryParser<R>: LogParser<R> {
    fn handle_directories(&mut self, tree: &LogTree, exclusion: &Option<String>) -> (r: Result<
        (),
        crate::BattleToolsError,
    >)
        requires
            tree_wf(*tree),
        ensures
            ({
                let run = spec_run_files::<Self, R>(
                    old(self).state_model(),
                    spec_all_jobs(*tree, excl_view(*exclusion)),
                );
                let fold = Self::on_fold(run.0, run.1);
                &&& final(self).state_model() == fold.0
                &&& (r is Ok <==> fold.1)
            }),
    ;
}

impl<T: LogParser<R>, R> ParallelDirectoryParser<R> for T {
    /// Drains the tree, hands each file to the parser, and folds all
    /// results in one call. A file the parser rejects is skipped; it never
    /// aborts the run.
    fn handle_directories(&mut self, tree: &LogTree, exclusion: &Option<String>) -> (r: Result<
        (),
        crate::BattleToolsError,
    >) {
        let ghost m0 = self.state_model();
        let ghost gexcl = excl_view(*exclusion);
        let ghost gjobs = spec_all_jobs(*tree, gexcl);
        let jobs = collect_files(tree, exclusion);
        proof {
            assert(jobs@.map_values(|j: FileJob| j@) == gjobs);
        }
        let mut results: Vec<R> = Vec::new();
        let mut items = jobs;
        proof {
            assert(gjobs.skip(0) =~= gjobs);
            assert(results@.map_values(|x: R| T::result_model(x)) =~= Seq::<T::VR>::empty());
        }
        while items.len() > 0
            invariant
                items@.len() <= gjobs.len(),
                items@.map_values(|j: FileJob| j@) == gjobs.skip(gjobs.len() - items@.len()),
                spec_run_files::<T, R>(m0, gjobs) == ({
                    let rem = spec_run_files::<T, R>(
                        self.state_model(),
                        gjobs.skip(gjobs.len() - items@.len()),
                    );
                    (rem.0, results@.map_values(|x: R| T::result_model(x)) + rem.1)
                }),
            decreases items@.len(),
        {
            let ghost k = gjobs.len() - items@.len();
            let ghost mcur = self.state_model();
            let ghost rest = gjobs.skip(k as int);
            let ghost pre = results@.map_values(|x: R| T::result_model(x));
            proof {
                assert(rest[0] == items@.map_values(|j: FileJob| j@)[0]);
                assert(rest.skip(1) =~= gjobs.skip(k + 1));
            }
            let job = items.remove(0);
            proof {
                assert(job@ == rest[0]);
                assert(items@.map_values(|j: FileJob| j@) =~= gjobs.skip(k + 1));
            }
            match self.handle_log_file(job.content.as_str(), job.dir.as_str(), job.file.as_str()) {
                Ok(v) => {
                    let ghost vm = T::result_model(v);
                    results.push(v);
                    proof {
                        let step = T::on_file(mcur, rest[0].content, rest[0].dir, rest[0].file);
                        assert(step.1 == Some(vm));
                        assert(results@.map_values(|x: R| T::result_model(x)) =~= pre.push(vm));
                        let rem = spec_run_files::<T, R>(self.state_model(), gjobs.skip(k + 1));
                        assert(spec_run_files::<T, R>(mcur, rest) == (rem.0, seq![vm] + rem.1));
                        assert(pre.push(vm) + rem.1 =~= pre + (seq![vm] + rem.1));
                    }
                },
                Err(_) => {
                    proof {
                        let step = T::on_file(mcur, rest[0].content, rest[0].dir, rest[0].file);
                        assert(step.1 is None);
                        let rem = spec_run_files::<T, R>(self.state_model(), gjobs.skip(k + 1));
                        assert(spec_run_files::<T, R>(mcur, rest) == (rem.0, rem.1));
                    }
                },
            }
        }
        proof {
            assert(gjobs.skip(gjobs.len() - 0) =~= Seq::<SpecJob>::empty());
            let rem = spec_run_files::<T, R>(self.state_model(), Seq::<SpecJob>::empty());
            assert(rem == (self.state_model(), Seq::<T::VR>::empty()));
            assert(results@.map_values(|x: R| T::result_model(x)) + Seq::<T::VR>::empty()
                =~= results@.map_values(|x: R| T::result_model(x)));
        }
        self.handle_results(results)
    }
}

} // verus!
