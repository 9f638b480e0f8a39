//! Tasks: named lists of command lines, resolved against the settings and the
//! arguments of a run, and the bookkeeping of a run line by line.
use vstd::prelude::*;
use crate::settings::{pairs_of, Pair, Settings};
use crate::template::{
    arg_token, closes_key, key_close, lemma_key_close, lemma_key_close_skip, resolve_line, subst_args, arg_match, lemma_arg_match,
    subst_settings, token_key,
};
use crate::text::{
    find_char_from, lemma_find, is_blank, is_blank_str, join_path, join_str, matches_at, split_words, views,
    words_of,
};

verus! {

/// Why a task, or one line of it, did not run through.
#[derive(Clone, Copy, PartialEq, Eq, Debug, Structural)]
pub enum TaskError {
    /// The task's file does not exist.
    TaskNotFound,
    /// The external program could not be started.
    SpawnFailure,
    /// The external program ran and exited with this non-zero status.
    NonZeroExit(i32),
}

/// The argument lists that the lines `ls` give: each line that is not blank,
/// resolved and split at whitespace, in order.
pub open spec fn plan(ls: Seq<Seq<char>>, m: Map<Seq<char>, Seq<char>>, args: Seq<Pair>) -> Seq<
    Seq<Seq<char>>,
>
    decreases ls.len(),
{
    if ls.len() == 0 {
        seq![]
    } else {
        let rest = plan(ls.drop_last(), m, args);
        if is_blank(ls.last()) {
            rest
        } else {
            rest.push(words_of(resolve_line(ls.last(), m, args)))
        }
    }
}

/// The views of a list of argument lists.
pub open spec fn command_views(v: Seq<Vec<String>>) -> Seq<Seq<Seq<char>>> {
    v.map_values(|c: Vec<String>| views(c@))
}

/// A named task with the settings and arguments it is run with.
pub struct Task {
    task_name: String,
    task_path: String,
    settings: Settings,
    args: Vec<(String, String)>,
}

impl Task {
    /// The task's name.
    pub closed spec fn name(&self) -> Seq<char> {
        self.task_name@
    }

    /// The path of the task's file.
    pub closed spec fn path(&self) -> Seq<char> {
        self.task_path@
    }

    /// The settings the task resolves against.
    pub closed spec fn store(&self) -> Settings {
        self.settings
    }

    /// The arguments the task resolves against, in order.
    pub closed spec fn arg_pairs(&self) -> Seq<Pair> {
        pairs_of(self.args@)
    }

    /// The settings are well formed.
    pub open spec fn wf(&self) -> bool {
        self.store().wf()
    }

    /// The task `task_name`, whose file is `<task_name>.txt` in `gitter_path`.
    pub fn new(
        task_name: String,
        gitter_path: String,
        settings: Settings,
        args: Vec<(String, String)>,
    ) -> (r: Task)
        requires
            settings.wf(),
        ensures
            r.wf(),
            r.name() == task_name@,
            r.path() == join_path(gitter_path@, task_name@ + ".txt"@),
            r.store() == settings,
            r.arg_pairs() == pairs_of(args@),
    {
        let mut file = task_name.clone();
        file.append(".txt");
        let task_path = join_str(gitter_path.as_str(), file.as_str());
        Task { task_name, task_path, settings, args }
    }

    /// The task's name.
    pub fn task_name(&self) -> (r: &String)
        ensures
            r@ == self.name(),
    {
        &self.task_name
    }

    /// The path of the task's file.
    pub fn task_path(&self) -> (r: &String)
        ensures
            r@ == self.path(),
    {
        &self.task_path
    }

    /// Replaces the settings placeholders of `command` by their values.
    pub fn replace_settings(&self, command: &str) -> (r: String)
        requires
            self.wf(),
        ensures
            r@ == subst_settings(command@, self.store()@),
    {
        let settings = &self.settings;
        let n = command.unicode_len();
        let mut out = String::new();
        let mut i: usize = 0;
        assert(command@.subrange(0, n as int) =~= command@);
        while i < n
            invariant
                i <= n,
                n == command@.len(),
                self.wf(),
                *settings == self.store(),
                out@ + subst_settings(command@.subrange(i as int, n as int), settings@) == subst_settings(
                    command@,
                    settings@,
                ),
            decreases n - i,
        {
            let ghost t = command@.subrange(i as int, n as int);
            let ghost before = out@;
            let mut next: usize = i + 1;
            let mut done = false;
            if i + 1 < n && command.get_char(i) == '$' && command.get_char(i + 1) == '{' {
                let c = self.key_close_at(command, i);
                proof {
                    lemma_key_close(t, settings@, 2);
                }
                if c < n {
                    let key = command.substring_char(i + 2, c);
                    assert(key@ =~= token_key(t, settings@));
                    match settings.get(key) {
                        Some(v) => {
                            out.append(v.as_str());
                            next = c + 1;
                            done = true;
                            assert(t.subrange(key_close(t, settings@, 2) + 1, t.len() as int)
                                =~= command@.subrange(c + 1, n as int));
                        },
                        None => {},
                    }
                }
            }
            if !done {
                let ch = command.substring_char(i, i + 1);
                out.append(ch);
                assert(ch@ =~= seq![t[0]]);
                assert(t.drop_first() =~= command@.subrange(i + 1, n as int));
            }
            proof {
                let rest = command@.subrange(next as int, n as int);
                assert(out@ + subst_settings(rest, settings@) =~= before + (subst_settings(
                    t,
                    settings@,
                )));
            }
            i = next;
        }
        assert(out@ + subst_settings(command@.subrange(n as int, n as int), settings@) =~= out@);
        out
    }

    /// Where the settings placeholder opened at position `i` of `command`
    /// closes, or the length of `command` where none does.
    fn key_close_at(&self, command: &str, i: usize) -> (r: usize)
        requires
            self.wf(),
            i + 2 <= command@.len(),
        ensures
            r == i + key_close(command@.subrange(i as int, command@.len() as int), self.store()@, 2),
    {
        let n = command.unicode_len();
        let ghost t = command@.subrange(i as int, n as int);
        let ghost m = self.store()@;
        let mut j: usize = i + 2;
        while j < n
            invariant
                i + 2 <= j <= n,
                n == command@.len(),
                t == command@.subrange(i as int, n as int),
                m == self.store()@,
                self.wf(),
                key_close(t, m, 2) == key_close(t, m, j - i),
            decreases n - j,
        {
            let c = find_char_from(command, '}', j);
            proof {
                let u = command@.subrange(j as int, n as int);
                lemma_find(u, '}');
                assert forall|x: int| j - i <= x < c - i implies !closes_key(t, m, x) by {
                    assert(t[x] == u[x - (j - i)]);
                }
                lemma_key_close_skip(t, m, j - i, c - i);
                if c < n {
                    assert(t[c - i] == u[c - j]);
                }
            }
            if c >= n {
                return n;
            }
            let key = command.substring_char(i + 2, c);
            assert(key@ =~= t.subrange(2, c - i));
            match self.settings.get(key) {
                Some(_) => {
                    return c;
                },
                None => {},
            }
            j = c + 1;
        }
        n
    }

    /// The placeholder `{{key}}` of each argument pair, in order.
    fn arg_tokens(&self) -> (r: Vec<String>)
        ensures
            r@.len() == self.arg_pairs().len(),
            forall|x: int| 0 <= x < r@.len() ==> #[trigger] r@[x]@ == arg_token(self.arg_pairs()[x].0),
    {
        let mut r: Vec<String> = Vec::new();
        let n = self.args.len();
        let mut i: usize = 0;
        proof {
            reveal_strlit("{{");
            reveal_strlit("}}");
        }
        while i < n
            invariant
                i <= n,
                n == self.args@.len(),
                n == self.arg_pairs().len(),
                "{{"@ == seq!['{', '{'],
                "}}"@ == seq!['}', '}'],
                r@.len() == i,
                forall|x: int| 0 <= x < i ==> #[trigger] r@[x]@ == arg_token(self.arg_pairs()[x].0),
            decreases n - i,
        {
            let mut token = String::from_str("{{");
            token.append(self.args[i].0.as_str());
            token.append("}}");
            assert(token@ =~= arg_token(self.arg_pairs()[i as int].0));
            r.push(token);
            i = i + 1;
        }
        r
    }

    /// The index of the first argument pair whose placeholder stands at
    /// position `i` of `command`, or the number of pairs where none does.
    fn arg_at(&self, command: &str, tokens: &Vec<String>, i: usize) -> (r: usize)
        requires
            i <= command@.len(),
            tokens@.len() == self.arg_pairs().len(),
            forall|x: int| 0 <= x < tokens@.len() ==> #[trigger] tokens@[x]@ == arg_token(self.arg_pairs()[x].0),
        ensures
            r == arg_match(command@.subrange(i as int, command@.len() as int), self.arg_pairs(), 0),
    {
        let n = command.unicode_len();
        let ghost t = command@.subrange(i as int, n as int);
        let ghost e = self.arg_pairs();
        let k = tokens.len();
        let mut j: usize = 0;
        while j < k
            invariant
                j <= k,
                k == e.len(),
                n == command@.len(),
                i <= n,
                t == command@.subrange(i as int, n as int),
                e == self.arg_pairs(),
                tokens@.len() == k,
                forall|x: int| 0 <= x < k ==> #[trigger] tokens@[x]@ == arg_token(e[x].0),
                arg_match(t, e, 0) == arg_match(t, e, j as int),
            decreases k - j,
        {
            let tok = tokens[j].as_str();
            let m = tok.unicode_len();
            assert(tok@ == arg_token(e[j as int].0));
            if m <= n - i && matches_at(command, tok, i) {
                assert(t.subrange(0, m as int) =~= command@.subrange(i as int, i + m));
                return j;
            }
            if m <= n - i {
                assert(t.subrange(0, m as int) =~= command@.subrange(i as int, i + m));
            }
            j = j + 1;
        }
        k
    }

    /// Replaces the argument placeholders of `command` in one pass from left
    /// to right; at each position the first pair whose placeholder stands
    /// there gives the value.
    pub fn replace_args(&self, command: &str) -> (r: String)
        ensures
            r@ == subst_args(command@, self.arg_pairs()),
    {
        let tokens = self.arg_tokens();
        let ghost e = self.arg_pairs();
        let n = command.unicode_len();
        let mut out = String::new();
        let mut i: usize = 0;
        assert(command@.subrange(0, n as int) =~= command@);
        while i < n
            invariant
                i <= n,
                n == command@.len(),
                e == self.arg_pairs(),
                e.len() == self.args@.len(),
                tokens@.len() == e.len(),
                forall|x: int| 0 <= x < tokens@.len() ==> #[trigger] tokens@[x]@ == arg_token(e[x].0),
                out@ + subst_args(command@.subrange(i as int, n as int), e) == subst_args(command@, e),
            decreases n - i,
        {
            let ghost t = command@.subrange(i as int, n as int);
            let ghost before = out@;
            let j = self.arg_at(command, &tokens, i);
            proof {
                lemma_arg_match(t, e, 0);
            }
            if j < tokens.len() {
                let m = tokens[j].as_str().unicode_len();
                assert(tokens@[j as int]@ == arg_token(e[j as int].0));
                assert(e[j as int].1 == self.args@[j as int].1@);
                out.append(self.args[j].1.as_str());
                proof {
                    assert(t.subrange(m as int, t.len() as int) =~= command@.subrange(i + m, n as int));
                    assert(out@ + subst_args(command@.subrange(i + m, n as int), e) =~= before
                        + subst_args(t, e));
                }
                i = i + m;
            } else {
                let ch = command.substring_char(i, i + 1);
                out.append(ch);
                proof {
                    assert(ch@ =~= seq![t[0]]);
                    assert(t.drop_first() =~= command@.subrange(i + 1, n as int));
                    assert(out@ + subst_args(command@.subrange(i + 1, n as int), e) =~= before
                        + subst_args(t, e));
                }
                i = i + 1;
            }
        }
        assert(out@ + subst_args(command@.subrange(n as int, n as int), e) =~= out@);
        out
    }

    /// Resolves `command`: settings placeholders first, then argument placeholders.
    pub fn resolve(&self, command: &str) -> (r: String)
        requires
            self.wf(),
        ensures
            r@ == resolve_line(command@, self.store()@, self.arg_pairs()),
    {
        let s = self.replace_settings(command);
        self.replace_args(s.as_str())
    }

    /// The argument lists to run for the lines of the task's file: blank
    /// lines are skipped, the others resolved and split at whitespace.
    pub fn commands(&self, lines: &Vec<String>) -> (r: Vec<Vec<String>>)
        requires
            self.wf(),
        ensures
            command_views(r@) == plan(views(lines@), self.store()@, self.arg_pairs()),
    {
        let mut r: Vec<Vec<String>> = Vec::new();
        let n = lines.len();
        let mut i: usize = 0;
        assert(views(lines@).subrange(0, 0) =~= Seq::<Seq<char>>::empty());
        assert(command_views(r@) =~= Seq::<Seq<Seq<char>>>::empty());
        while i < n
            invariant
                i <= n,
                n == lines@.len(),
                self.wf(),
                command_views(r@) == plan(
                    views(lines@).subrange(0, i as int),
                    self.store()@,
                    self.arg_pairs(),
                ),
            decreases n - i,
        {
            let line = lines[i].as_str();
            proof {
                let ls = views(lines@).subrange(0, i + 1);
                assert(ls.drop_last() =~= views(lines@).subrange(0, i as int));
                assert(ls.last() == line@);
            }
            if !is_blank_str(line) {
                let resolved = self.resolve(line);
                let words = split_words(resolved.as_str());
                let ghost before = command_views(r@);
                r.push(words);
                assert(command_views(r@) =~= before.push(views(words@)));
            }
            i = i + 1;
        }
        assert(views(lines@).subrange(0, n as int) =~= views(lines@));
        r
    }

    /// Starts a run of the task over the lines of its file, or reports that
    /// the file does not exist (`None`).
    pub fn start(&self, lines: Option<&Vec<String>>) -> (r: Result<TaskRun, TaskError>)
        requires
            self.wf(),
        ensures
            match lines {
                None => r == Err::<TaskRun, TaskError>(TaskError::TaskNotFound),
                Some(ls) => r is Ok && r->Ok_0.wf() && r->Ok_0.commands() == plan(
                    views(ls@),
                    self.store()@,
                    self.arg_pairs(),
                ) && r->Ok_0.position() == 0 && r->Ok_0.failed().len() == 0,
            },
    {
        match lines {
            None => Err(TaskError::TaskNotFound),
            Some(ls) => {
                let commands = self.commands(ls);
                Ok(TaskRun { commands, next: 0, failures: Vec::new() })
            },
        }
    }
}

/// A run of a task: the argument lists to run, how many have run, and which
/// of those failed and how. Every line runs, whatever came of the ones before.
pub struct TaskRun {
    commands: Vec<Vec<String>>,
    next: usize,
    failures: Vec<(usize, TaskError)>,
}

impl TaskRun {
    /// The argument lists of the run, in order.
    pub closed spec fn commands(&self) -> Seq<Seq<Seq<char>>> {
        command_views(self.commands@)
    }

    /// How many lines have run.
    pub closed spec fn position(&self) -> nat {
        self.next as nat
    }

    /// The lines that failed, by index, with what went wrong.
    pub closed spec fn failed(&self) -> Seq<(usize, TaskError)> {
        self.failures@
    }

    /// No more lines have run than there are.
    pub open spec fn wf(&self) -> bool {
        self.position() <= self.commands().len()
    }

    /// Whether the task holds any line to run.
    pub fn has_rules(&self) -> (r: bool)
        ensures
            r == (self.commands().len() > 0),
    {
        self.commands.len() > 0
    }

    /// Whether every line has run.
    pub fn is_finished(&self) -> (r: bool)
        requires
            self.wf(),
        ensures
            r == (self.position() == self.commands().len()),
    {
        self.next == self.commands.len()
    }

    /// The argument list of the next line to run, if any is left.
    pub fn next_command(&self) -> (r: Option<&Vec<String>>)
        requires
            self.wf(),
        ensures
            match r {
                Some(c) => self.position() < self.commands().len() && views(c@)
                    == self.commands()[self.position() as int],
                None => self.position() == self.commands().len(),
            },
    {
        if self.next < self.commands.len() {
            Some(&self.commands[self.next])
        } else {
            None
        }
    }

    /// Records how the next line went and moves on to the one after it,
    /// whether it succeeded or not.
    pub fn record(&mut self, outcome: Result<(), TaskError>)
        requires
            old(self).wf(),
            old(self).position() < old(self).commands().len(),
        ensures
            final(self).wf(),
            final(self).commands() == old(self).commands(),
            final(self).position() == old(self).position() + 1,
            final(self).failed() == match outcome {
                Ok(()) => old(self).failed(),
                Err(e) => old(self).failed().push((old(self).position() as usize, e)),
            },
    {
        let n = self.commands.len();
        assert(self.commands().len() == n);
        match outcome {
            Ok(()) => {},
            Err(e) => {
                self.failures.push((self.next, e));
            },
        }
        self.next = self.next + 1;
    }

    /// The lines that failed, by index, with what went wrong.
    pub fn failures(&self) -> (r: &Vec<(usize, TaskError)>)
        ensures
            r@ == self.failed(),
    {
        &self.failures
    }
}

} // verus!
