//! Recovering git remotes from surviving `.git/config` files, shell history
//! and the GitHub CLI's repository list, and turning them into a script that
//! clones everything again.

use vstd::prelude::*;
use crate::numfmt::{dec_digits, push_dec};
use crate::text::{
    chars_of, copy_chars, find, find_exec, last_piece, last_piece_exec, lines, owned, push_chars,
    push_str, split_lines, split_words, starts_with, starts_with_exec, string_of, sub_chars, trim,
    trim_char, trim_char_exec, trim_end_matches, trim_end_matches_exec, trim_exec,
    trim_start_matches, trim_start_matches_exec, words,
};

verus! {

broadcast use vstd::string::group_string_axioms;

/// A repository that can be cloned again.
#[derive(Clone, Debug)]
pub struct RecoveredRepo {
    pub name: String,
    pub remote: String,
    pub source: String,
    pub local_path: Option<String>,
}

pub struct RepoModel {
    pub name: Seq<char>,
    pub remote: Seq<char>,
    pub source: Seq<char>,
    pub local_path: Option<Seq<char>>,
}

pub open spec fn opt_string(o: Option<String>) -> Option<Seq<char>> {
    match o {
        Some(s) => Some(s@),
        None => None,
    }
}

impl View for RecoveredRepo {
    type V = RepoModel;

    open spec fn view(&self) -> RepoModel {
        RepoModel {
            name: self.name@,
            remote: self.remote@,
            source: self.source@,
            local_path: opt_string(self.local_path),
        }
    }
}

pub open spec fn opt_repo(o: Option<RecoveredRepo>) -> Option<RepoModel> {
    match o {
        Some(r) => Some(r@),
        None => None,
    }
}

pub open spec fn opt_chars(o: Option<Vec<char>>) -> Option<Seq<char>> {
    match o {
        Some(v) => Some(v@),
        None => None,
    }
}

pub open spec fn repos_view(v: Seq<RecoveredRepo>) -> Seq<RepoModel> {
    v.map_values(|r: RecoveredRepo| r@)
}

pub open spec fn strings_view(v: Seq<String>) -> Seq<Seq<char>> {
    v.map_values(|s: String| s@)
}

/// What the background scan reports.
#[derive(Clone)]
pub enum ScanEvent {
    Progress(String),
    FoundRepo(RecoveredRepo),
    Done,
}

/// The remotes seen so far in one scan.
pub struct RepoScan {
    pub seen: Vec<String>,
}

// ---------------------------------------------------------------------------
// Specification
// ---------------------------------------------------------------------------

/// A repository's name from its remote: the last path piece without `.git`.
pub open spec fn repo_name(url: Seq<char>) -> Seq<char> {
    trim_end_matches(last_piece(url, '/'), ".git"@)
}

/// Scans lines in order: each line may name a repository; one whose remote
/// was not seen yet is reported and its remote remembered.
pub open spec fn scan_lines(
    ls: Seq<Seq<char>>,
    seen: Seq<Seq<char>>,
    pick: spec_fn(Seq<char>) -> Option<RepoModel>,
) -> (Seq<Seq<char>>, Seq<RepoModel>)
    decreases ls.len(),
{
    if ls.len() == 0 {
        (seen, Seq::empty())
    } else {
        let st = scan_lines(ls.drop_last(), seen, pick);
        match pick(ls.last()) {
            Some(r) => if st.0.contains(r.remote) {
                st
            } else {
                (st.0.push(r.remote), st.1.push(r))
            },
            None => st,
        }
    }
}

/// The directory of a repository from the path of its `.git/config`.
pub open spec fn repo_dir(config_path: Seq<char>) -> Seq<char> {
    trim_end_matches(trim_end_matches(config_path, "/.git/config"@), "/config"@)
}

/// A `url = ...` line of a git config (trimmed) names a remote.
pub open spec fn pick_config(config_path: Seq<char>) -> spec_fn(Seq<char>) -> Option<RepoModel> {
    |line: Seq<char>|
        {
            let l = trim(line);
            if starts_with(l, "url = "@) {
                let url = trim_start_matches(l, "url = "@);
                Some(
                    RepoModel {
                        name: repo_name(url),
                        remote: url,
                        source: "surviving .git"@,
                        local_path: Some(repo_dir(config_path)),
                    },
                )
            } else {
                None
            }
        }
}

/// A history line without zsh's `: <time>:<n>;` prefix.
pub open spec fn history_command(raw: Seq<char>) -> Seq<char> {
    if starts_with(raw, ": "@) {
        match find(raw, seq![';']) {
            Some(k) => raw.skip(k + 1),
            None => raw,
        }
    } else {
        raw
    }
}

/// The options of `git clone` whose value may follow as the next word.
pub open spec fn takes_value(w: Seq<char>) -> bool {
    ||| w == "--template"@
    ||| w == "-o"@
    ||| w == "--origin"@
    ||| w == "-b"@
    ||| w == "--branch"@
    ||| w == "--revision"@
    ||| w == "-u"@
    ||| w == "--upload-pack"@
    ||| w == "--reference"@
    ||| w == "--reference-if-able"@
    ||| w == "--separate-git-dir"@
    ||| w == "--depth"@
    ||| w == "--shallow-since"@
    ||| w == "--shallow-exclude"@
    ||| w == "-j"@
    ||| w == "--jobs"@
    ||| w == "-c"@
    ||| w == "--config"@
    ||| w == "--server-option"@
    ||| w == "--filter"@
    ||| w == "--bundle-uri"@
    ||| w == "--ref-format"@
}

/// The first word that is neither an option (it starts with `-`) nor the
/// value of an option that takes the next word; nothing if there is none.
pub open spec fn first_operand(ws: Seq<Seq<char>>) -> Seq<char>
    decreases ws.len(),
{
    if ws.len() == 0 {
        Seq::empty()
    } else if starts_with(ws[0], seq!['-']) {
        if takes_value(ws[0]) {
            if ws.len() < 2 {
                Seq::empty()
            } else {
                first_operand(ws.skip(2))
            }
        } else {
            first_operand(ws.drop_first())
        }
    } else {
        ws[0]
    }
}

/// The remote a `git clone` command line names, with quotes trimmed.
pub open spec fn clone_url(line: Seq<char>) -> Option<Seq<char>> {
    match find(line, "git clone "@) {
        Some(k) => {
            let rest = line.skip(k + 10);
            Some(trim_char(trim_char(first_operand(words(rest)), '\''), '"'))
        },
        None => None,
    }
}

/// A shell history line that runs `git clone <url>` names a remote.
pub open spec fn pick_history() -> spec_fn(Seq<char>) -> Option<RepoModel> {
    |raw: Seq<char>|
        match clone_url(history_command(raw)) {
            Some(url) => if url.len() > 0 {
                Some(
                    RepoModel {
                        name: repo_name(url),
                        remote: url,
                        source: "shell history"@,
                        local_path: None,
                    },
                )
            } else {
                None
            },
            None => None,
        }
}

/// A line of `gh repo list` starts with `owner/name`.
pub open spec fn pick_gh() -> spec_fn(Seq<char>) -> Option<RepoModel> {
    |line: Seq<char>|
        {
            let parts = words(line);
            if parts.len() > 0 {
                let full = parts[0];
                Some(
                    RepoModel {
                        name: last_piece(full, '/'),
                        remote: "https://github.com/"@ + full + ".git"@,
                        source: "gh CLI"@,
                        local_path: None,
                    },
                )
            } else {
                None
            }
        }
}

/// The config files that `find` listed: its non-blank lines, trimmed.
pub open spec fn listed_paths(ls: Seq<Seq<char>>) -> Seq<Seq<char>>
    decreases ls.len(),
{
    if ls.len() == 0 {
        Seq::empty()
    } else {
        let prev = listed_paths(ls.drop_last());
        let t = trim(ls.last());
        if t.len() > 0 {
            prev.push(t)
        } else {
            prev
        }
    }
}

// ---------------------------------------------------------------------------
// Laws of a scan
// ---------------------------------------------------------------------------

pub open spec fn remotes(rs: Seq<RepoModel>) -> Seq<Seq<char>> {
    rs.map_values(|r: RepoModel| r.remote)
}

/// A word that can be a remote as written: not empty, without whitespace or
/// quotes, and not an option.
pub open spec fn plain_word(u: Seq<char>) -> bool {
    &&& u.len() > 0
    &&& u[0] != '-'
    &&& forall|i: int|
        0 <= i < u.len() ==> !crate::text::is_ws(#[trigger] u[i]) && u[i] != '\'' && u[i] != '"'
}

proof fn lemma_plain_word_is_its_own_words(u: Seq<char>)
    requires
        plain_word(u),
    ensures
        words(u) == seq![u],
        trim_char(trim_char(u, '\''), '"') == u,
        first_operand(seq![u]) == u,
{
    assert(crate::text::trim_start(u) == u);
    crate::text::lemma_first_ws_is(u, u.len() as int);
    assert(u.skip(u.len() as int) =~= Seq::<char>::empty());
    assert(crate::text::trim_start(u.skip(u.len() as int)) == Seq::<char>::empty());
    assert(words(u.skip(u.len() as int)) == Seq::<Seq<char>>::empty());
    assert(u.take(u.len() as int) =~= u);
    assert(seq![u] + Seq::<Seq<char>>::empty() =~= seq![u]);
    assert(!starts_with(u, seq!['\''])) by {
        assert(u.take(1)[0] == u[0]);
        assert(seq!['\''][0] == '\'');
    }
    assert(!crate::text::ends_with(u, seq!['\''])) by {
        assert(u.skip(u.len() - 1)[0] == u[u.len() - 1]);
        assert(seq!['\''][0] == '\'');
    }
    assert(!starts_with(u, seq!['"'])) by {
        assert(u.take(1)[0] == u[0]);
        assert(seq!['"'][0] == '"');
    }
    assert(!crate::text::ends_with(u, seq!['"'])) by {
        assert(u.skip(u.len() - 1)[0] == u[u.len() - 1]);
        assert(seq!['"'][0] == '"');
    }
    assert(!starts_with(u, seq!['-'])) by {
        assert(u.take(1)[0] == u[0]);
        assert(seq!['-'][0] == '-');
    }
    assert(seq![u][0] == u);
}

proof fn lemma_clone_chars()
    ensures
        "git clone "@ == seq!['g', 'i', 't', ' ', 'c', 'l', 'o', 'n', 'e', ' '],
{
    reveal_strlit("git clone ");
    assert("git clone "@ =~= seq!['g', 'i', 't', ' ', 'c', 'l', 'o', 'n', 'e', ' ']);
}

proof fn lemma_no_clone_across(line: Seq<char>, n: int, j: int)
    requires
        0 <= j < n,
        n < j + 10,
        n + 10 <= line.len(),
        line.subrange(n, n + 10) == seq!['g', 'i', 't', ' ', 'c', 'l', 'o', 'n', 'e', ' '],
    ensures
        !crate::text::occurs_at(line, seq!['g', 'i', 't', ' ', 'c', 'l', 'o', 'n', 'e', ' '], j),
{
    let pat = seq!['g', 'i', 't', ' ', 'c', 'l', 'o', 'n', 'e', ' '];
    assert(line[n] == line.subrange(n, n + 10)[0]);
    if crate::text::occurs_at(line, pat, j) {
        assert(line.subrange(j, j + 10)[n - j] == line[n]);
        assert(line[n] == 'g');
        assert(pat[n - j] != 'g');
    }
}

proof fn lemma_clone_found_after(p: Seq<char>, u: Seq<char>)
    requires
        !crate::text::contains(p, "git clone "@),
    ensures
        crate::text::find(p + "git clone "@ + u, "git clone "@) == Some(p.len() as int),
{
    lemma_clone_chars();
    let pat = "git clone "@;
    let line = p + pat + u;
    let n = p.len() as int;
    assert(line.subrange(n, n + 10) =~= pat);
    crate::text::lemma_find_from_spec(p, pat, 0);
    assert forall|j: int| 0 <= j < n implies !crate::text::occurs_at(line, pat, j) by {
        if j + 10 <= n {
            assert(!crate::text::occurs_at(p, pat, j));
            assert(line.subrange(j, j + 10) =~= p.subrange(j, j + 10));
        } else {
            lemma_no_clone_across(line, n, j);
        }
    }
    crate::text::lemma_find_from_some(line, pat, 0, n);
}

/// `git clone` counts wherever it stands in a line: after any text `p` that
/// does not itself hold `git clone `, the command names the remote `u` that
/// follows it.
pub proof fn law_clone_anywhere_in_the_line(p: Seq<char>, u: Seq<char>)
    requires
        !crate::text::contains(p, "git clone "@),
        plain_word(u),
    ensures
        clone_url(p + "git clone "@ + u) == Some(u),
{
    lemma_clone_found_after(p, u);
    lemma_clone_chars();
    let line = p + "git clone "@ + u;
    let n = p.len() as int;
    assert(line.skip(n + 10) =~= u);
    lemma_plain_word_is_its_own_words(u);
}

/// A shell history line that runs `git clone` on a plain remote after other
/// commands names that remote, as a repository from the shell history.
pub proof fn law_history_clone_anywhere(p: Seq<char>, u: Seq<char>)
    requires
        !crate::text::contains(p, "git clone "@),
        !starts_with(p + "git clone "@ + u, ": "@),
        plain_word(u),
    ensures
        pick_history()(p + "git clone "@ + u) == Some(
            RepoModel { name: repo_name(u), remote: u, source: "shell history"@, local_path: None },
        ),
{
    law_clone_anywhere_in_the_line(p, u);
}

/// A scan reports each remote at most once: the remotes it reports are new,
/// pairwise distinct, and exactly what it adds to the remotes seen.
pub proof fn law_scan_reports_each_remote_once(
    ls: Seq<Seq<char>>,
    seen: Seq<Seq<char>>,
    pick: spec_fn(Seq<char>) -> Option<RepoModel>,
)
    ensures
        ({
            let r = scan_lines(ls, seen, pick);
            &&& r.0 == seen + remotes(r.1)
            &&& forall|i: int| 0 <= i < r.1.len() ==> !seen.contains(#[trigger] r.1[i].remote)
            &&& forall|i: int, j: int|
                0 <= i < j < r.1.len() ==> #[trigger] r.1[i].remote != #[trigger] r.1[j].remote
        }),
    decreases ls.len(),
{
    if ls.len() > 0 {
        law_scan_reports_each_remote_once(ls.drop_last(), seen, pick);
        let st = scan_lines(ls.drop_last(), seen, pick);
        let r = scan_lines(ls, seen, pick);
        match pick(ls.last()) {
            Some(x) => {
                if !st.0.contains(x.remote) {
                    assert(remotes(r.1) =~= remotes(st.1).push(x.remote));
                    assert(r.0 =~= seen + remotes(r.1));
                    assert forall|i: int| 0 <= i < r.1.len() implies !seen.contains(
                        #[trigger] r.1[i].remote,
                    ) by {
                        if i == st.1.len() {
                            if seen.contains(x.remote) {
                                let k = choose|k: int| 0 <= k < seen.len() && seen[k] == x.remote;
                                assert(st.0[k] == x.remote);
                            }
                        } else {
                            assert(r.1[i] == st.1[i]);
                        }
                    }
                    assert forall|i: int, j: int| 0 <= i < j < r.1.len() implies #[trigger] r.1[i].remote
                        != #[trigger] r.1[j].remote by {
                        if j == st.1.len() {
                            assert(r.1[i] == st.1[i]);
                            assert(st.0[seen.len() + i] == remotes(st.1)[i]);
                        } else {
                            assert(r.1[i] == st.1[i]);
                            assert(r.1[j] == st.1[j]);
                        }
                    }
                }
            },
            None => {},
        }
    }
}

// ---------------------------------------------------------------------------
// Executable scanning
// ---------------------------------------------------------------------------

fn seen_contains(seen: &Vec<String>, url: &Vec<char>) -> (b: bool)
    ensures
        b == strings_view(seen@).contains(url@),
{
    let n = seen.len();
    let mut i: usize = 0;
    while i < n
        invariant
            n == seen@.len(),
            i <= n,
            forall|j: int| 0 <= j < i ==> seen@[j]@ != url@,
        decreases n - i,
    {
        let s = chars_of(seen[i].as_str());
        if vec_eq(&s, url) {
            assert(strings_view(seen@)[i as int] == url@);
            return true;
        }
        i += 1;
    }
    assert forall|j: int| 0 <= j < strings_view(seen@).len() implies strings_view(seen@)[j] != url@ by {
        assert(strings_view(seen@)[j] == seen@[j]@);
    }
    false
}

fn vec_eq(a: &Vec<char>, b: &Vec<char>) -> (r: bool)
    ensures
        r == (a@ == b@),
{
    if a.len() != b.len() {
        return false;
    }
    let n = a.len();
    let mut i: usize = 0;
    while i < n
        invariant
            n == a@.len() == b@.len(),
            i <= n,
            forall|j: int| 0 <= j < i ==> a@[j] == b@[j],
        decreases n - i,
    {
        if a[i] != b[i] {
            return false;
        }
        i += 1;
    }
    assert(a@ =~= b@);
    true
}

fn repo_name_exec(url: &Vec<char>) -> (r: Vec<char>)
    ensures
        r@ == repo_name(url@),
{
    let last = last_piece_exec(url, '/');
    let git = chars_of(".git");
    proof {
        reveal_strlit(".git");
    }
    trim_end_matches_exec(&last, &git)
}

impl RepoScan {
    pub fn new() -> (s: RepoScan)
        ensures
            s.seen@.len() == 0,
    {
        RepoScan { seen: Vec::new() }
    }

    /// Reports `r` unless its remote was seen; remembers it.
    fn offer(&mut self, r: RecoveredRepo, out: &mut Vec<RecoveredRepo>)
        ensures
            ({
                let st = (strings_view(old(self).seen@), repos_view(old(out)@));
                let after = if st.0.contains(r@.remote) {
                    st
                } else {
                    (st.0.push(r@.remote), st.1.push(r@))
                };
                &&& strings_view(final(self).seen@) == after.0
                &&& repos_view(final(out)@) == after.1
            }),
    {
        let url = chars_of(r.remote.as_str());
        if !seen_contains(&self.seen, &url) {
            let ghost s0 = strings_view(self.seen@);
            let ghost o0 = repos_view(out@);
            let ghost rm = r@;
            self.seen.push(r.remote.clone());
            out.push(r);
            assert(strings_view(self.seen@) =~= s0.push(rm.remote));
            assert(repos_view(out@) =~= o0.push(rm));
        }
    }

    /// Runs a line picker over the lines of `text`.
    fn scan_text(
        &mut self,
        text: &str,
        Ghost(pick): Ghost<spec_fn(Seq<char>) -> Option<RepoModel>>,
        pick_exec: PickKind,
        config_path: &str,
    ) -> (out: Vec<RecoveredRepo>)
        requires
            pick_exec.matches(pick, config_path@),
        ensures
            ({
                let r = scan_lines(lines(text@), strings_view(old(self).seen@), pick);
                &&& strings_view(final(self).seen@) == r.0
                &&& repos_view(out@) == r.1
            }),
    {
        let chars = chars_of(text);
        let ls = split_lines(&chars);
        let ghost lsv = ls.deep_view();
        let ghost seen0 = strings_view(self.seen@);
        let mut out: Vec<RecoveredRepo> = Vec::new();
        let n = ls.len();
        let mut i: usize = 0;
        while i < n
            invariant
                n == ls@.len(),
                i <= n,
                lsv == ls.deep_view(),
                lsv == lines(text@),
                pick_exec.matches(pick, config_path@),
                ({
                    let r = scan_lines(lsv.take(i as int), seen0, pick);
                    &&& strings_view(self.seen@) == r.0
                    &&& repos_view(out@) == r.1
                }),
            decreases n - i,
        {
            let line = &ls[i];
            assert(line@ == lsv[i as int]);
            assert(lsv.take(i + 1).drop_last() =~= lsv.take(i as int));
            assert(lsv.take(i + 1).last() == line@);
            match pick_exec.pick(line, config_path) {
                Some(r) => {
                    self.offer(r, &mut out);
                },
                None => {},
            }
            i += 1;
        }
        assert(lsv.take(n as int) =~= lsv);
        out
    }

    /// The repositories that a git config names in its `url = ` lines, found
    /// at `config_path`; remotes seen before are skipped.
    pub fn scan_git_config(&mut self, config_path: &str, config_text: &str) -> (out: Vec<RecoveredRepo>)
        ensures
            ({
                let r = scan_lines(
                    lines(config_text@),
                    strings_view(old(self).seen@),
                    pick_config(config_path@),
                );
                &&& strings_view(final(self).seen@) == r.0
                &&& repos_view(out@) == r.1
            }),
    {
        self.scan_text(config_text, Ghost(pick_config(config_path@)), PickKind::Config, config_path)
    }

    /// The repositories that `git clone` commands in a shell history name;
    /// remotes seen before are skipped.
    pub fn scan_history(&mut self, history: &str) -> (out: Vec<RecoveredRepo>)
        ensures
            ({
                let r = scan_lines(lines(history@), strings_view(old(self).seen@), pick_history());
                &&& strings_view(final(self).seen@) == r.0
                &&& repos_view(out@) == r.1
            }),
    {
        self.scan_text(history, Ghost(pick_history()), PickKind::History, "")
    }

    /// The repositories of a `gh repo list` output, as GitHub remotes;
    /// remotes seen before are skipped.
    pub fn scan_gh_list(&mut self, listing: &str) -> (out: Vec<RecoveredRepo>)
        ensures
            ({
                let r = scan_lines(lines(listing@), strings_view(old(self).seen@), pick_gh());
                &&& strings_view(final(self).seen@) == r.0
                &&& repos_view(out@) == r.1
            }),
    {
        self.scan_text(listing, Ghost(pick_gh()), PickKind::Gh, "")
    }
}

/// Which kind of line a scan reads.
enum PickKind {
    Config,
    History,
    Gh,
}

impl PickKind {
    spec fn matches(
        self,
        pick: spec_fn(Seq<char>) -> Option<RepoModel>,
        config_path: Seq<char>,
    ) -> bool {
        match self {
            PickKind::Config => pick == pick_config(config_path),
            PickKind::History => pick == pick_history(),
            PickKind::Gh => pick == pick_gh(),
        }
    }

    fn pick(&self, line: &Vec<char>, config_path: &str) -> (r: Option<RecoveredRepo>)
        ensures
            match self {
                PickKind::Config => opt_repo(r) == pick_config(config_path@)(line@),
                PickKind::History => opt_repo(r) == pick_history()(line@),
                PickKind::Gh => opt_repo(r) == pick_gh()(line@),
            },
    {
        match self {
            PickKind::Config => pick_config_line(line, config_path),
            PickKind::History => pick_history_line(line),
            PickKind::Gh => pick_gh_line(line),
        }
    }
}

fn repo_dir_exec(config_path: &str) -> (r: String)
    ensures
        r@ == repo_dir(config_path@),
{
    let p = chars_of(config_path);
    let a = chars_of("/.git/config");
    let b = chars_of("/config");
    proof {
        reveal_strlit("/.git/config");
        reveal_strlit("/config");
    }
    let t = trim_end_matches_exec(&p, &a);
    let u = trim_end_matches_exec(&t, &b);
    string_of(&u)
}

fn pick_config_line(line: &Vec<char>, config_path: &str) -> (r: Option<RecoveredRepo>)
    ensures
        opt_repo(r) == pick_config(config_path@)(line@),
{
    let l = trim_exec(line);
    let prefix = chars_of("url = ");
    proof {
        reveal_strlit("url = ");
    }
    if starts_with_exec(&l, &prefix) {
        let url = trim_start_matches_exec(&l, &prefix);
        let name = repo_name_exec(&url);
        Some(
            RecoveredRepo {
                name: string_of(&name),
                remote: string_of(&url),
                source: owned("surviving .git"),
                local_path: Some(repo_dir_exec(config_path)),
            },
        )
    } else {
        None
    }
}

fn history_command_exec(raw: &Vec<char>) -> (r: Vec<char>)
    ensures
        r@ == history_command(raw@),
{
    let prefix = chars_of(": ");
    proof {
        reveal_strlit(": ");
    }
    if starts_with_exec(raw, &prefix) {
        let semi = vec![';'];
        assert(semi@ =~= seq![';']);
        match find_exec(raw, &semi) {
            Some(k) => {
                proof {
                    crate::text::lemma_find_from_spec(raw@, semi@, 0);
                    assert(crate::text::occurs_at(raw@, semi@, k as int));
                    assert(k + 1 <= raw@.len());
                    assert(raw@.len() == raw.len());
                }
                let r = sub_chars(raw, k + 1, raw.len());
                assert(r@ =~= raw@.skip(k + 1));
                r
            },
            None => copy_chars(raw),
        }
    } else {
        copy_chars(raw)
    }
}

fn is_word(w: &Vec<char>, lit: &str) -> (r: bool)
    ensures
        r == (w@ == lit@),
{
    let l = chars_of(lit);
    vec_eq(w, &l)
}

fn takes_value_exec(w: &Vec<char>) -> (r: bool)
    ensures
        r == takes_value(w@),
{
    is_word(w, "--template") || is_word(w, "-o") || is_word(w, "--origin") || is_word(w, "-b")
        || is_word(w, "--branch") || is_word(w, "--revision") || is_word(w, "-u") || is_word(
        w,
        "--upload-pack",
    ) || is_word(w, "--reference") || is_word(w, "--reference-if-able") || is_word(
        w,
        "--separate-git-dir",
    ) || is_word(w, "--depth") || is_word(w, "--shallow-since") || is_word(w, "--shallow-exclude")
        || is_word(w, "-j") || is_word(w, "--jobs") || is_word(w, "-c") || is_word(w, "--config")
        || is_word(w, "--server-option") || is_word(w, "--filter") || is_word(w, "--bundle-uri")
        || is_word(w, "--ref-format")
}

fn first_operand_exec(ws: &Vec<Vec<char>>) -> (r: Vec<char>)
    ensures
        r@ == first_operand(ws.deep_view()),
{
    let dash = vec!['-'];
    assert(dash@ =~= seq!['-']);
    let n = ws.len();
    let mut i: usize = 0;
    assert(ws.deep_view().skip(0) =~= ws.deep_view());
    while i < n
        invariant
            n == ws@.len(),
            i <= n,
            dash@ == seq!['-'],
            first_operand(ws.deep_view()) == first_operand(ws.deep_view().skip(i as int)),
        decreases n - i,
    {
        let ghost rest = ws.deep_view().skip(i as int);
        assert(rest[0] == ws@[i as int]@);
        if !starts_with_exec(&ws[i], &dash) {
            return copy_chars(&ws[i]);
        }
        if takes_value_exec(&ws[i]) {
            if i + 1 >= n {
                return Vec::new();
            }
            assert(rest.skip(2) =~= ws.deep_view().skip(i + 2));
            i += 2;
        } else {
            assert(rest.drop_first() =~= ws.deep_view().skip(i + 1));
            i += 1;
        }
    }
    assert(ws.deep_view().skip(n as int) =~= Seq::<Seq<char>>::empty());
    Vec::new()
}

fn clone_url_exec(line: &Vec<char>) -> (r: Option<Vec<char>>)
    ensures
        opt_chars(r) == clone_url(line@),
{
    let pat = chars_of("git clone ");
    proof {
        reveal_strlit("git clone ");
    }
    match find_exec(line, &pat) {
        Some(k) => {
            proof {
                crate::text::lemma_find_from_spec(line@, pat@, 0);
                assert(crate::text::occurs_at(line@, pat@, k as int));
                assert(pat@.len() == 10);
                assert(k + 10 <= line@.len());
                assert(line@.len() == line.len());
            }
            let rest = sub_chars(line, k + 10, line.len());
            assert(rest@ =~= line@.skip(k + 10));
            let ws = split_words(&rest);
            let first = first_operand_exec(&ws);
            let a = trim_char_exec(&first, '\'');
            let b = trim_char_exec(&a, '"');
            Some(b)
        },
        None => None,
    }
}

fn pick_history_line(raw: &Vec<char>) -> (r: Option<RecoveredRepo>)
    ensures
        opt_repo(r) == pick_history()(raw@),
{
    let line = history_command_exec(raw);
    match clone_url_exec(&line) {
        Some(url) => {
            if url.len() > 0 {
                let name = repo_name_exec(&url);
                Some(
                    RecoveredRepo {
                        name: string_of(&name),
                        remote: string_of(&url),
                        source: owned("shell history"),
                        local_path: None,
                    },
                )
            } else {
                None
            }
        },
        None => None,
    }
}

fn pick_gh_line(line: &Vec<char>) -> (r: Option<RecoveredRepo>)
    ensures
        opt_repo(r) == pick_gh()(line@),
{
    let parts = split_words(line);
    if parts.len() > 0 {
        let full = &parts[0];
        assert(full@ == words(line@)[0]) by {
            assert(parts.deep_view()[0] == full@);
        }
        let name = last_piece_exec(full, '/');
        let mut url = owned("https://github.com/");
        push_chars(&mut url, full);
        push_str(&mut url, ".git");
        Some(RecoveredRepo { name: string_of(&name), remote: url, source: owned("gh CLI"), local_path: None })
    } else {
        None
    }
}

/// The config files that `find` listed: its non-blank lines, trimmed.
pub fn config_paths(find_output: &str) -> (paths: Vec<String>)
    ensures
        strings_view(paths@) == listed_paths(lines(find_output@)),
{
    let chars = chars_of(find_output);
    let ls = split_lines(&chars);
    let ghost lsv = ls.deep_view();
    let mut paths: Vec<String> = Vec::new();
    let n = ls.len();
    let mut i: usize = 0;
    while i < n
        invariant
            n == ls@.len(),
            i <= n,
            lsv == ls.deep_view(),
            strings_view(paths@) == listed_paths(lsv.take(i as int)),
        decreases n - i,
    {
        assert(ls@[i as int]@ == lsv[i as int]);
        assert(lsv.take(i + 1).drop_last() =~= lsv.take(i as int));
        assert(lsv.take(i + 1).last() == lsv[i as int]);
        let t = trim_exec(&ls[i]);
        if t.len() > 0 {
            let ghost before = strings_view(paths@);
            paths.push(string_of(&t));
            assert(strings_view(paths@) =~= before.push(t@));
        }
        i += 1;
    }
    assert(lsv.take(n as int) =~= lsv);
    paths
}


// ---------------------------------------------------------------------------
// The recovery tab
// ---------------------------------------------------------------------------

/// How to recover plain files with PhotoRec when no remote is left.
pub const PHOTOREC_INSTRUCTIONS: &'static str = r#"=== Deep File Recovery with PhotoRec ===

PhotoRec recovers files by scanning raw disk blocks for file signatures.
It does NOT preserve filenames or folder structure.

STEPS:
1. Install testdisk:
   brew install testdisk

2. Boot from a separate drive or USB (recovery on same disk reduces odds).

3. Run photorec as root:
   sudo photorec

4. Select the disk (usually "APPLE SSD" or similar)
5. Select partition type (EFI GPT or Intel)
6. Select the APFS partition
7. Choose "Other" for filesystem type
8. Select [File Opt] → check source code types: .rs, .ts, .js, .py, .java, .kt, .swift, .go, .c, .h, .cpp, .toml, .json, .yaml, .md, .dart, .gradle, .xml, .properties
9. Choose destination (an EXTERNAL drive — NOT the same disk)
10. Start recovery

After recovery, you'll get thousands of files named like f1234567.rs.
Use `file` command or grep through content to identify what you need.
"#;

/// The first lines of the re-clone script.
pub const SCRIPT_HEADER: &'static str = "#!/bin/zsh\n# Recovery script — run to re-clone projects\n# Generated by Disk Doctor\n\n";

/// The git recovery tab's state.
pub struct GitRecoveryState {
    pub repos: Vec<RecoveredRepo>,
    pub scanning: bool,
    pub scan_progress: String,
    pub done: bool,
    pub script: Option<String>,
    pub show_script: bool,
    /// Whether the text in `script` is the PhotoRec guide (set when the
    /// text is made, not read off it).
    pub script_is_guide: bool,
}

pub enum EventModel {
    Progress(Seq<char>),
    Found(RepoModel),
    Done,
}

impl View for ScanEvent {
    type V = EventModel;

    open spec fn view(&self) -> EventModel {
        match self {
            ScanEvent::Progress(m) => EventModel::Progress(m@),
            ScanEvent::FoundRepo(r) => EventModel::Found(r@),
            ScanEvent::Done => EventModel::Done,
        }
    }
}

pub open spec fn events_view(v: Seq<ScanEvent>) -> Seq<EventModel> {
    v.map_values(|e: ScanEvent| e@)
}

/// The part of the tab's state that scan events change.
pub struct ScanModel {
    pub repos: Seq<RepoModel>,
    pub scanning: bool,
    pub progress: Seq<char>,
    pub done: bool,
}

impl GitRecoveryState {
    pub open spec fn scan_model(&self) -> ScanModel {
        ScanModel {
            repos: repos_view(self.repos@),
            scanning: self.scanning,
            progress: self.scan_progress@,
            done: self.done,
        }
    }
}

/// `Found {n} repos`.
pub open spec fn found_text(n: nat) -> Seq<char> {
    "Found "@ + dec_digits(n) + " repos"@
}

/// One event: progress replaces the message, a found repository is added,
/// the end of the scan stops it and reports the count.
pub open spec fn apply_event(st: ScanModel, e: EventModel) -> ScanModel {
    match e {
        EventModel::Progress(m) => ScanModel { progress: m, ..st },
        EventModel::Found(r) => ScanModel { repos: st.repos.push(r), ..st },
        EventModel::Done => ScanModel {
            scanning: false,
            done: true,
            progress: found_text(st.repos.len()),
            ..st
        },
    }
}

pub open spec fn apply_events(st: ScanModel, es: Seq<EventModel>) -> ScanModel
    decreases es.len(),
{
    if es.len() == 0 {
        st
    } else {
        apply_event(apply_events(st, es.drop_last()), es.last())
    }
}

/// The repositories that a run of events reports, in order.
pub open spec fn found_in(es: Seq<EventModel>) -> Seq<RepoModel>
    decreases es.len(),
{
    if es.len() == 0 {
        Seq::empty()
    } else {
        match es.last() {
            EventModel::Found(r) => found_in(es.drop_last()).push(r),
            _ => found_in(es.drop_last()),
        }
    }
}

/// Events only ever add repositories: after them the list is the old one
/// followed by the repositories they report, in order.
pub proof fn law_events_collect_repos(st: ScanModel, es: Seq<EventModel>)
    ensures
        apply_events(st, es).repos == st.repos + found_in(es),
    decreases es.len(),
{
    if es.len() == 0 {
        assert(st.repos + found_in(es) =~= st.repos);
    } else {
        law_events_collect_repos(st, es.drop_last());
        match es.last() {
            EventModel::Found(r) => {
                assert(st.repos + found_in(es.drop_last()).push(r) =~= (st.repos + found_in(
                    es.drop_last(),
                )).push(r));
            },
            _ => {},
        }
    }
}

/// The script's lines for one repository.
pub open spec fn repo_block(r: RepoModel) -> Seq<char> {
    "# "@ + r.remote + " ("@ + r.source + ")\n"@ + match r.local_path {
        Some(p) => "# Already at: "@ + p + "\n"@,
        None => "git clone "@ + r.remote + " "@ + r.name + "\n"@,
    } + "\n"@
}

/// The re-clone script: a header, then a block per repository; one already
/// on disk is only noted, the others are cloned again.
pub open spec fn script_text(repos: Seq<RepoModel>) -> Seq<char>
    decreases repos.len(),
{
    if repos.len() == 0 {
        SCRIPT_HEADER@
    } else {
        script_text(repos.drop_last()) + repo_block(repos.last())
    }
}

pub open spec fn count_local(repos: Seq<RepoModel>) -> nat
    decreases repos.len(),
{
    if repos.len() == 0 {
        0
    } else {
        count_local(repos.drop_last()) + if repos.last().local_path is Some {
            1nat
        } else {
            0nat
        }
    }
}

pub open spec fn count_source(repos: Seq<RepoModel>, source: Seq<char>) -> nat
    decreases repos.len(),
{
    if repos.len() == 0 {
        0
    } else {
        count_source(repos.drop_last(), source) + if repos.last().source == source {
            1nat
        } else {
            0nat
        }
    }
}

proof fn lemma_counts_bounded(repos: Seq<RepoModel>, source: Seq<char>)
    ensures
        count_local(repos) <= repos.len(),
        count_source(repos, source) <= repos.len(),
    decreases repos.len(),
{
    if repos.len() > 0 {
        lemma_counts_bounded(repos.drop_last(), source);
    }
}

fn chars_eq_str(a: &String, b: &str) -> (r: bool)
    ensures
        r == (a@ == b@),
{
    let x = chars_of(a.as_str());
    let y = chars_of(b);
    vec_eq(&x, &y)
}

/// How many repositories still have local data, came from shell history,
/// and came from GitHub.
pub fn repo_counts(repos: &Vec<RecoveredRepo>) -> (r: (usize, usize, usize))
    ensures
        r.0 == count_local(repos_view(repos@)),
        r.1 == count_source(repos_view(repos@), "shell history"@),
        r.2 == count_source(repos_view(repos@), "gh CLI"@),
{
    let ghost rv = repos_view(repos@);
    let n = repos.len();
    let mut a: usize = 0;
    let mut b: usize = 0;
    let mut c: usize = 0;
    let mut i: usize = 0;
    while i < n
        invariant
            n == repos@.len(),
            i <= n,
            rv == repos_view(repos@),
            a == count_local(rv.take(i as int)),
            b == count_source(rv.take(i as int), "shell history"@),
            c == count_source(rv.take(i as int), "gh CLI"@),
        decreases n - i,
    {
        proof {
            assert(rv.take(i + 1).drop_last() =~= rv.take(i as int));
            assert(rv.take(i + 1).last() == repos@[i as int]@);
            lemma_counts_bounded(rv.take(i as int), "shell history"@);
            lemma_counts_bounded(rv.take(i as int), "gh CLI"@);
        }
        if repos[i].local_path.is_some() {
            a += 1;
        }
        if chars_eq_str(&repos[i].source, "shell history") {
            b += 1;
        }
        if chars_eq_str(&repos[i].source, "gh CLI") {
            c += 1;
        }
        i += 1;
    }
    assert(rv.take(n as int) =~= rv);
    (a, b, c)
}

/// The script that clones the recovered repositories again.
pub fn reclone_script(repos: &Vec<RecoveredRepo>) -> (s: String)
    ensures
        s@ == script_text(repos_view(repos@)),
{
    let ghost rv = repos_view(repos@);
    let mut s = owned(SCRIPT_HEADER);
    let n = repos.len();
    let mut i: usize = 0;
    assert(rv.take(0) =~= Seq::<RepoModel>::empty());
    while i < n
        invariant
            n == repos@.len(),
            i <= n,
            rv == repos_view(repos@),
            s@ == script_text(rv.take(i as int)),
        decreases n - i,
    {
        let r = &repos[i];
        assert(rv.take(i + 1).drop_last() =~= rv.take(i as int));
        assert(rv.take(i + 1).last() == r@);
        let ghost before = s@;
        push_str(&mut s, "# ");
        push_str(&mut s, r.remote.as_str());
        push_str(&mut s, " (");
        push_str(&mut s, r.source.as_str());
        push_str(&mut s, ")\n");
        match &r.local_path {
            Some(p) => {
                push_str(&mut s, "# Already at: ");
                push_str(&mut s, p.as_str());
                push_str(&mut s, "\n");
            },
            None => {
                push_str(&mut s, "git clone ");
                push_str(&mut s, r.remote.as_str());
                push_str(&mut s, " ");
                push_str(&mut s, r.name.as_str());
                push_str(&mut s, "\n");
            },
        }
        push_str(&mut s, "\n");
        assert(s@ =~= before + repo_block(r@));
        i += 1;
    }
    assert(rv.take(n as int) =~= rv);
    s
}

impl GitRecoveryState {
    /// A scan begins: the list is emptied and the scan marked running.
    pub fn start_scan(&mut self)
        ensures
            final(self).repos@.len() == 0,
            final(self).scanning,
            !final(self).done,
            final(self).scan_progress@ == "Starting scan..."@,
            final(self).script == old(self).script,
            final(self).show_script == old(self).show_script,
            final(self).script_is_guide == old(self).script_is_guide,
    {
        self.scanning = true;
        self.done = false;
        self.repos = Vec::new();
        self.scan_progress = owned("Starting scan...");
    }

    /// Takes in the events the scan reported since the last call, in order.
    pub fn update(&mut self, events: Vec<ScanEvent>)
        ensures
            final(self).scan_model() == apply_events(old(self).scan_model(), events_view(events@)),
            final(self).script == old(self).script,
            final(self).show_script == old(self).show_script,
            final(self).script_is_guide == old(self).script_is_guide,
    {
        let ghost ev = events_view(events@);
        let ghost st0 = self.scan_model();
        let mut events = events;
        let ghost orig = events@;
        let n = events.len();
        let mut i: usize = 0;
        assert(ev.take(0) =~= Seq::<EventModel>::empty());
        assert(orig.skip(0) =~= orig);
        while i < n
            invariant
                n == orig.len(),
                ev == events_view(orig),
                i <= n,
                events@ == orig.skip(i as int),
                self.scan_model() == apply_events(st0, ev.take(i as int)),
                self.script == old(self).script,
                self.show_script == old(self).show_script,
                self.script_is_guide == old(self).script_is_guide,
            decreases n - i,
        {
            let e = events.remove(0);
            assert(e == orig[i as int]);
            assert(e@ == ev[i as int]);
            assert(events@ =~= orig.skip(i + 1));
            assert(ev.take(i + 1).drop_last() =~= ev.take(i as int));
            let ghost before = self.scan_model();
            match e {
                ScanEvent::Progress(m) => {
                    self.scan_progress = m;
                },
                ScanEvent::FoundRepo(r) => {
                    let ghost rm = r@;
                    self.repos.push(r);
                    assert(repos_view(self.repos@) =~= before.repos.push(rm));
                },
                ScanEvent::Done => {
                    self.scanning = false;
                    self.done = true;
                    let mut m = owned("Found ");
                    push_dec(&mut m, self.repos.len() as u64);
                    push_str(&mut m, " repos");
                    self.scan_progress = m;
                },
            }
            assert(self.scan_model() == apply_event(before, ev[i as int]));
            i += 1;
        }
        assert(ev.take(n as int) =~= ev);
    }

    /// Shows the re-clone script for the repositories found.
    pub fn show_reclone_script(&mut self)
        ensures
            final(self).repos@ == old(self).repos@,
            final(self).scan_model() == old(self).scan_model(),
            final(self).show_script,
            !final(self).script_is_guide,
            opt_string(final(self).script) == Some(script_text(repos_view(old(self).repos@))),
    {
        self.script = Some(reclone_script(&self.repos));
        self.show_script = true;
        self.script_is_guide = false;
    }

    /// Shows the PhotoRec guide.
    pub fn show_photorec_guide(&mut self)
        ensures
            final(self).scan_model() == old(self).scan_model(),
            final(self).show_script,
            final(self).script_is_guide,
            opt_string(final(self).script) == Some(PHOTOREC_INSTRUCTIONS@),
    {
        self.script = Some(owned(PHOTOREC_INSTRUCTIONS));
        self.show_script = true;
        self.script_is_guide = true;
    }

    /// Closes the script window.
    pub fn close_script(&mut self)
        ensures
            final(self).scan_model() == old(self).scan_model(),
            !final(self).show_script,
            !final(self).script_is_guide,
            final(self).script is None,
    {
        self.show_script = false;
        self.script_is_guide = false;
        self.script = None;
    }

    /// Whether the text shown is the PhotoRec guide rather than a script:
    /// the kind recorded when the text was made.
    pub fn shows_guide(&self) -> (b: bool)
        ensures
            b == (self.script is Some && self.script_is_guide),
    {
        self.script.is_some() && self.script_is_guide
    }
}

impl Default for GitRecoveryState {
    fn default() -> (s: Self)
        ensures
            s.repos@.len() == 0,
            !s.scanning,
            s.scan_progress@.len() == 0,
            !s.done,
            s.script is None,
            !s.show_script,
            !s.script_is_guide,
    {
        GitRecoveryState {
            repos: Vec::new(),
            scanning: false,
            scan_progress: String::new(),
            done: false,
            script: None,
            show_script: false,
            script_is_guide: false,
        }
    }
}


// ---------------------------------------------------------------------------
// A whole scan run
// ---------------------------------------------------------------------------

/// The first message of a scan run.
pub const CONFIGS_MESSAGE: &'static str = "Scanning for surviving .git dirs...";

/// The message when the shell histories are read.
pub const HISTORY_MESSAGE: &'static str = "Scanning shell history...";

/// The message when the GitHub CLI is asked.
pub const GH_MESSAGE: &'static str = "Checking gh CLI...";

/// The stages of a scan run, in order.
pub enum RunStage {
    Configs,
    History,
    Gh,
    Over,
}

/// A scan run: surviving git configs, then shell histories, then the GitHub
/// CLI's list, then the end. The repositories each stage reported are kept
/// as ghost values.
pub struct ScanRun {
    pub scan: RepoScan,
    pub stage: RunStage,
    pub from_configs: Ghost<Seq<RepoModel>>,
    pub from_history: Ghost<Seq<RepoModel>>,
    pub from_gh: Ghost<Seq<RepoModel>>,
}

/// A `FoundRepo` event for each repository, in order.
pub open spec fn found_events(rs: Seq<RepoModel>) -> Seq<EventModel> {
    rs.map_values(|r: RepoModel| EventModel::Found(r))
}

/// Every repository of `rs` comes from `source`.
pub open spec fn all_from(rs: Seq<RepoModel>, source: Seq<char>) -> bool {
    forall|i: int| 0 <= i < rs.len() ==> (#[trigger] rs[i]).source == source
}

impl ScanRun {
    /// The events sent so far: each stage's message, then what it found,
    /// and `Done` at the end.
    pub open spec fn sent(&self) -> Seq<EventModel> {
        let a = seq![EventModel::Progress(CONFIGS_MESSAGE@)] + found_events(self.from_configs@);
        let b = a + seq![EventModel::Progress(HISTORY_MESSAGE@)] + found_events(self.from_history@);
        let c = b + seq![EventModel::Progress(GH_MESSAGE@)] + found_events(self.from_gh@);
        match self.stage {
            RunStage::Configs => a,
            RunStage::History => b,
            RunStage::Gh => c,
            RunStage::Over => c.push(EventModel::Done),
        }
    }

    /// Everything reported so far, in order.
    pub open spec fn found(&self) -> Seq<RepoModel> {
        self.from_configs@ + self.from_history@ + self.from_gh@
    }

    /// The remotes seen are exactly those reported, none twice; each stage
    /// reports its own source; later stages have reported nothing yet.
    pub open spec fn wf(&self) -> bool {
        &&& strings_view(self.scan.seen@) == remotes(self.found())
        &&& remotes(self.found()).no_duplicates()
        &&& all_from(self.from_configs@, "surviving .git"@)
        &&& all_from(self.from_history@, "shell history"@)
        &&& all_from(self.from_gh@, "gh CLI"@)
        &&& (self.stage is Configs ==> self.from_history@.len() == 0)
        &&& (self.stage is Configs || self.stage is History ==> self.from_gh@.len() == 0)
    }
}

proof fn lemma_scan_lines_source(
    ls: Seq<Seq<char>>,
    seen: Seq<Seq<char>>,
    pick: spec_fn(Seq<char>) -> Option<RepoModel>,
    source: Seq<char>,
)
    requires
        forall|l: Seq<char>| (#[trigger] pick(l)) matches Some(r) ==> r.source == source,
    ensures
        all_from(scan_lines(ls, seen, pick).1, source),
    decreases ls.len(),
{
    if ls.len() > 0 {
        lemma_scan_lines_source(ls.drop_last(), seen, pick, source);
        let st = scan_lines(ls.drop_last(), seen, pick);
        let r = scan_lines(ls, seen, pick);
        assert forall|i: int| 0 <= i < r.1.len() implies (#[trigger] r.1[i]).source == source by {
            if i < st.1.len() {
                assert(r.1[i] == st.1[i]);
            } else {
                assert(pick(ls.last()) is Some);
            }
        }
    }
}

/// After a scan of new lines, the remotes seen still hold no duplicates and
/// are those reported before followed by those just reported.
proof fn lemma_step_keeps_remotes_distinct(
    ls: Seq<Seq<char>>,
    before: Seq<RepoModel>,
    pick: spec_fn(Seq<char>) -> Option<RepoModel>,
)
    requires
        remotes(before).no_duplicates(),
    ensures
        ({
            let r = scan_lines(ls, remotes(before), pick);
            &&& r.0 == remotes(before + r.1)
            &&& remotes(before + r.1).no_duplicates()
        }),
{
    let r = scan_lines(ls, remotes(before), pick);
    law_scan_reports_each_remote_once(ls, remotes(before), pick);
    assert(remotes(before + r.1) =~= remotes(before) + remotes(r.1));
    let all = remotes(before + r.1);
    assert forall|i: int, j: int| 0 <= i < all.len() && 0 <= j < all.len() && i != j implies all[i]
        != all[j] by {
        let n = before.len() as int;
        if i < n && j < n {
        } else if i >= n && j >= n {
            assert(all[i] == r.1[i - n].remote);
            assert(all[j] == r.1[j - n].remote);
            if i < j {
                assert(r.1[i - n].remote != r.1[j - n].remote);
            } else {
                assert(r.1[j - n].remote != r.1[i - n].remote);
            }
        } else if i < n {
            assert(all[j] == r.1[j - n].remote);
            assert(!remotes(before).contains(r.1[j - n].remote));
            assert(remotes(before)[i] == all[i]);
        } else {
            assert(all[i] == r.1[i - n].remote);
            assert(!remotes(before).contains(r.1[i - n].remote));
            assert(remotes(before)[j] == all[j]);
        }
    }
}

/// The `FoundRepo` events for `repos`, in order.
fn found_repo_events(repos: Vec<RecoveredRepo>) -> (out: Vec<ScanEvent>)
    ensures
        events_view(out@) == found_events(repos_view(repos@)),
{
    let ghost rv = repos_view(repos@);
    let mut repos = repos;
    let ghost orig = repos@;
    let mut out: Vec<ScanEvent> = Vec::new();
    let n = repos.len();
    let mut i: usize = 0;
    assert(orig.skip(0) =~= orig);
    while i < n
        invariant
            n == orig.len(),
            i <= n,
            rv == repos_view(orig),
            repos@ == orig.skip(i as int),
            events_view(out@) == found_events(rv.take(i as int)),
        decreases n - i,
    {
        let r = repos.remove(0);
        assert(r == orig[i as int]);
        assert(repos@ =~= orig.skip(i + 1));
        let ghost before = events_view(out@);
        let ghost rm = r@;
        out.push(ScanEvent::FoundRepo(r));
        assert(events_view(out@) =~= before.push(EventModel::Found(rm)));
        assert(found_events(rv.take(i + 1)) =~= found_events(rv.take(i as int)).push(
            EventModel::Found(rv[i as int]),
        ));
        i += 1;
    }
    assert(rv.take(n as int) =~= rv);
    out
}

impl ScanRun {
    /// A run begins: nothing seen yet, and its first message.
    pub fn start() -> (r: (ScanRun, ScanEvent))
        ensures
            r.0.wf(),
            r.0.stage is Configs,
            r.0.found().len() == 0,
            r.1@ == EventModel::Progress(CONFIGS_MESSAGE@),
            r.0.sent() == seq![r.1@],
    {
        let run = ScanRun {
            scan: RepoScan::new(),
            stage: RunStage::Configs,
            from_configs: Ghost(Seq::empty()),
            from_history: Ghost(Seq::empty()),
            from_gh: Ghost(Seq::empty()),
        };
        let e = ScanEvent::Progress(owned(CONFIGS_MESSAGE));
        assert(run.found() =~= Seq::<RepoModel>::empty());
        assert(strings_view(run.scan.seen@) =~= remotes(run.found()));
        assert(run.sent() =~= seq![e@]);
        (run, e)
    }

    /// The events for a surviving git config at `config_path`.
    pub fn config(&mut self, config_path: &str, config_text: &str) -> (out: Vec<ScanEvent>)
        requires
            old(self).wf(),
            old(self).stage is Configs,
        ensures
            final(self).wf(),
            final(self).stage is Configs,
            final(self).sent() == old(self).sent() + events_view(out@),
            events_view(out@) == found_events(
                scan_lines(
                    lines(config_text@),
                    strings_view(old(self).scan.seen@),
                    pick_config(config_path@),
                ).1,
            ),
    {
        let ghost before = self.found();
        let ghost fc = self.from_configs@;
        let ghost old_sent = self.sent();
        let repos = self.scan.scan_git_config(config_path, config_text);
        let ghost new = repos_view(repos@);
        proof {
            lemma_step_keeps_remotes_distinct(lines(config_text@), before, pick_config(config_path@));
            lemma_scan_lines_source(
                lines(config_text@),
                remotes(before),
                pick_config(config_path@),
                "surviving .git"@,
            );
        }
        self.from_configs = Ghost(fc + new);
        assert(self.found() =~= before + new);
        assert(all_from(self.from_configs@, "surviving .git"@)) by {
            assert forall|i: int| 0 <= i < self.from_configs@.len() implies (
            #[trigger] self.from_configs@[i]).source == "surviving .git"@ by {
                if i >= fc.len() {
                    assert(self.from_configs@[i] == new[i - fc.len()]);
                }
            }
        }
        let out = found_repo_events(repos);
        assert(found_events(fc + new) =~= found_events(fc) + found_events(new));
        assert(self.sent() =~= old_sent + events_view(out@));
        out
    }

    /// The history stage begins: its message.
    pub fn begin_history(&mut self) -> (e: ScanEvent)
        requires
            old(self).wf(),
            old(self).stage is Configs,
        ensures
            final(self).wf(),
            final(self).stage is History,
            e@ == EventModel::Progress(HISTORY_MESSAGE@),
            final(self).sent() == old(self).sent().push(e@),
            final(self).found() == old(self).found(),
    {
        let ghost old_sent = self.sent();
        self.stage = RunStage::History;
        let e = ScanEvent::Progress(owned(HISTORY_MESSAGE));
        assert(found_events(self.from_history@) =~= Seq::<EventModel>::empty());
        assert(self.sent() =~= old_sent.push(e@));
        e
    }

    /// The events for a shell history file.
    pub fn history(&mut self, history: &str) -> (out: Vec<ScanEvent>)
        requires
            old(self).wf(),
            old(self).stage is History,
        ensures
            final(self).wf(),
            final(self).stage is History,
            final(self).sent() == old(self).sent() + events_view(out@),
            events_view(out@) == found_events(
                scan_lines(lines(history@), strings_view(old(self).scan.seen@), pick_history()).1,
            ),
    {
        let ghost before = self.found();
        let ghost fh = self.from_history@;
        let ghost old_sent = self.sent();
        let repos = self.scan.scan_history(history);
        let ghost new = repos_view(repos@);
        proof {
            lemma_step_keeps_remotes_distinct(lines(history@), before, pick_history());
            lemma_scan_lines_source(lines(history@), remotes(before), pick_history(), "shell history"@);
        }
        self.from_history = Ghost(fh + new);
        assert(self.found() =~= before + new);
        assert(all_from(self.from_history@, "shell history"@)) by {
            assert forall|i: int| 0 <= i < self.from_history@.len() implies (
            #[trigger] self.from_history@[i]).source == "shell history"@ by {
                if i >= fh.len() {
                    assert(self.from_history@[i] == new[i - fh.len()]);
                }
            }
        }
        let out = found_repo_events(repos);
        assert(found_events(fh + new) =~= found_events(fh) + found_events(new));
        assert(self.sent() =~= old_sent + events_view(out@));
        out
    }

    /// The GitHub stage begins: its message.
    pub fn begin_gh(&mut self) -> (e: ScanEvent)
        requires
            old(self).wf(),
            old(self).stage is History,
        ensures
            final(self).wf(),
            final(self).stage is Gh,
            e@ == EventModel::Progress(GH_MESSAGE@),
            final(self).sent() == old(self).sent().push(e@),
            final(self).found() == old(self).found(),
    {
        let ghost old_sent = self.sent();
        self.stage = RunStage::Gh;
        let e = ScanEvent::Progress(owned(GH_MESSAGE));
        assert(found_events(self.from_gh@) =~= Seq::<EventModel>::empty());
        assert(self.sent() =~= old_sent.push(e@));
        e
    }

    /// The events for the output of `gh repo list`.
    pub fn gh(&mut self, listing: &str) -> (out: Vec<ScanEvent>)
        requires
            old(self).wf(),
            old(self).stage is Gh,
        ensures
            final(self).wf(),
            final(self).stage is Gh,
            final(self).sent() == old(self).sent() + events_view(out@),
            events_view(out@) == found_events(
                scan_lines(lines(listing@), strings_view(old(self).scan.seen@), pick_gh()).1,
            ),
    {
        let ghost before = self.found();
        let ghost fg = self.from_gh@;
        let ghost old_sent = self.sent();
        let repos = self.scan.scan_gh_list(listing);
        let ghost new = repos_view(repos@);
        proof {
            lemma_step_keeps_remotes_distinct(lines(listing@), before, pick_gh());
            lemma_scan_lines_source(lines(listing@), remotes(before), pick_gh(), "gh CLI"@);
        }
        self.from_gh = Ghost(fg + new);
        assert(self.found() =~= before + new);
        assert(all_from(self.from_gh@, "gh CLI"@)) by {
            assert forall|i: int| 0 <= i < self.from_gh@.len() implies (
            #[trigger] self.from_gh@[i]).source == "gh CLI"@ by {
                if i >= fg.len() {
                    assert(self.from_gh@[i] == new[i - fg.len()]);
                }
            }
        }
        let out = found_repo_events(repos);
        assert(found_events(fg + new) =~= found_events(fg) + found_events(new));
        assert(self.sent() =~= old_sent + events_view(out@));
        out
    }

    /// The run ends: its last event.
    pub fn end(&mut self) -> (e: ScanEvent)
        requires
            old(self).wf(),
            old(self).stage is Gh,
        ensures
            final(self).wf(),
            final(self).stage is Over,
            e@ == EventModel::Done,
            final(self).sent() == old(self).sent().push(e@),
            final(self).found() == old(self).found(),
    {
        self.stage = RunStage::Over;
        ScanEvent::Done
    }
}

proof fn lemma_found_in_concat(a: Seq<EventModel>, b: Seq<EventModel>)
    ensures
        found_in(a + b) == found_in(a) + found_in(b),
    decreases b.len(),
{
    if b.len() == 0 {
        assert(a + b =~= a);
        assert(found_in(a) + found_in(b) =~= found_in(a));
    } else {
        lemma_found_in_concat(a, b.drop_last());
        assert((a + b).drop_last() =~= a + b.drop_last());
        assert((a + b).last() == b.last());
        match b.last() {
            EventModel::Found(r) => {
                assert(found_in(a) + found_in(b.drop_last()).push(r) =~= (found_in(a) + found_in(
                    b.drop_last(),
                )).push(r));
            },
            _ => {},
        }
    }
}

proof fn lemma_found_in_found_events(rs: Seq<RepoModel>)
    ensures
        found_in(found_events(rs)) == rs,
    decreases rs.len(),
{
    if rs.len() == 0 {
        assert(found_events(rs) =~= Seq::<EventModel>::empty());
    } else {
        lemma_found_in_found_events(rs.drop_last());
        assert(found_events(rs).drop_last() =~= found_events(rs.drop_last()));
        assert(rs.drop_last().push(rs.last()) =~= rs);
    }
}

proof fn lemma_found_in_one(e: EventModel)
    ensures
        found_in(seq![e]) == (match e {
            EventModel::Found(r) => seq![r],
            _ => Seq::<RepoModel>::empty(),
        }),
{
    let z = seq![e].drop_last();
    assert(z =~= Seq::<EventModel>::empty());
    assert(found_in(z) == Seq::<RepoModel>::empty());
    assert(seq![e].last() == e);
    match e {
        EventModel::Found(r) => {
            assert(found_in(seq![e]) == found_in(z).push(r));
            assert(Seq::<RepoModel>::empty().push(r) =~= seq![r]);
        },
        _ => {},
    }
}

/// A finished run sends its first message first, the history and GitHub
/// messages in that order after the repositories of each stage, and `Done`
/// last and only last. The repositories it reports are those of the three
/// stages in order, each from that stage's source, and no remote is
/// reported twice.
pub proof fn law_run_reports_each_remote_once(run: ScanRun)
    requires
        run.wf(),
        run.stage is Over,
    ensures
        ({
            let s = run.sent();
            let h: int = run.from_configs@.len() as int + 1;
            let g: int = h + 1 + run.from_history@.len() as int;
            &&& s[0] == EventModel::Progress(CONFIGS_MESSAGE@)
            &&& s[h] == EventModel::Progress(HISTORY_MESSAGE@)
            &&& s[g] == EventModel::Progress(GH_MESSAGE@)
            &&& s.len() == g + 1 + run.from_gh@.len() + 1
            &&& s.last() == EventModel::Done
            &&& forall|i: int| 0 <= i < s.len() - 1 ==> !(#[trigger] s[i] is Done)
            &&& found_in(s) == run.from_configs@ + run.from_history@ + run.from_gh@
            &&& remotes(found_in(s)).no_duplicates()
            &&& all_from(run.from_configs@, "surviving .git"@)
            &&& all_from(run.from_history@, "shell history"@)
            &&& all_from(run.from_gh@, "gh CLI"@)
        }),
{
    let pa = seq![EventModel::Progress(CONFIGS_MESSAGE@)];
    let pb = seq![EventModel::Progress(HISTORY_MESSAGE@)];
    let pc = seq![EventModel::Progress(GH_MESSAGE@)];
    let fa = found_events(run.from_configs@);
    let fb = found_events(run.from_history@);
    let fc = found_events(run.from_gh@);
    let c = pa + fa + pb + fb + pc + fc;
    let s = run.sent();
    assert(s == c.push(EventModel::Done));
    assert(c.push(EventModel::Done) =~= c + seq![EventModel::Done]);
    lemma_found_in_one(EventModel::Progress(CONFIGS_MESSAGE@));
    lemma_found_in_one(EventModel::Progress(HISTORY_MESSAGE@));
    lemma_found_in_one(EventModel::Progress(GH_MESSAGE@));
    lemma_found_in_one(EventModel::Done);
    lemma_found_in_found_events(run.from_configs@);
    lemma_found_in_found_events(run.from_history@);
    lemma_found_in_found_events(run.from_gh@);
    lemma_found_in_concat(pa, fa);
    lemma_found_in_concat(pa + fa, pb);
    lemma_found_in_concat(pa + fa + pb, fb);
    lemma_found_in_concat(pa + fa + pb + fb, pc);
    lemma_found_in_concat(pa + fa + pb + fb + pc, fc);
    lemma_found_in_concat(c, seq![EventModel::Done]);
    assert(found_in(s) =~= run.from_configs@ + run.from_history@ + run.from_gh@);
    assert forall|i: int| 0 <= i < s.len() - 1 implies !(#[trigger] s[i] is Done) by {
        assert(s[i] == c[i]);
    }
}

} // verus!
