//! Where a command is found on the search path.
use vstd::prelude::*;
use vstd::string::StringSliceAdditionalSpecFns;

verus! {

/// The separator of search-path entries.
pub const PATH_SEP: char = ':';

/// The fields of `s` between separators, as `str::split` yields them: one
/// more field than there are separators, empty ones included.
pub open spec fn split_fields(s: Seq<char>, sep: char) -> Seq<Seq<char>>
    decreases s.len(),
{
    if s.len() == 0 {
        seq![Seq::empty()]
    } else if s[0] == sep {
        seq![Seq::<char>::empty()] + split_fields(s.skip(1), sep)
    } else {
        let r = split_fields(s.skip(1), sep);
        r.update(0, seq![s[0]] + r[0])
    }
}

proof fn lemma_split_fields_nonempty(s: Seq<char>, sep: char)
    ensures
        split_fields(s, sep).len() >= 1,
    decreases s.len(),
{
    if s.len() > 0 {
        lemma_split_fields_nonempty(s.skip(1), sep);
    }
}

proof fn lemma_split_fields_at(t: Seq<char>, sep: char, m: int)
    requires
        0 <= m < t.len(),
        forall|k: int| 0 <= k < m ==> t[k] != sep,
        t[m] == sep,
    ensures
        split_fields(t, sep) == seq![t.take(m)] + split_fields(t.skip(m + 1), sep),
    decreases m,
{
    if m == 0 {
        assert(t.take(0) =~= Seq::<char>::empty());
        assert(t.skip(1) =~= t.skip(m + 1));
    } else {
        let t1 = t.skip(1);
        assert forall|k: int| 0 <= k < m - 1 implies t1[k] != sep by {
            assert(t1[k] == t[k + 1]);
        }
        lemma_split_fields_at(t1, sep, m - 1);
        assert(t1.skip(m) =~= t.skip(m + 1));
        assert(seq![t[0]] + t1.take(m - 1) =~= t.take(m));
        let r = split_fields(t1, sep);
        assert(r.update(0, seq![t[0]] + r[0]) =~= seq![t.take(m)] + split_fields(t.skip(m + 1), sep));
    }
}

proof fn lemma_split_fields_none(t: Seq<char>, sep: char)
    requires
        forall|k: int| 0 <= k < t.len() ==> t[k] != sep,
    ensures
        split_fields(t, sep) == seq![t],
    decreases t.len(),
{
    if t.len() == 0 {
        assert(t =~= Seq::<char>::empty());
        assert(split_fields(t, sep) =~= seq![t]);
    } else {
        let t1 = t.skip(1);
        assert forall|k: int| 0 <= k < t1.len() implies t1[k] != sep by {
            assert(t1[k] == t[k + 1]);
        }
        lemma_split_fields_none(t1, sep);
        assert(seq![t[0]] + t1 =~= t);
        let r = split_fields(t1, sep);
        assert(r.update(0, seq![t[0]] + r[0]) =~= seq![t]);
    }
}

/// The path tried for `name` in the search-path entry `dir`: an empty entry
/// stands for the current directory.
pub open spec fn candidate(dir: Seq<char>, name: Seq<char>) -> Seq<char> {
    (if dir.len() == 0 { "."@ } else { dir }) + "/"@ + name
}

/// The longest file name, in bytes, that is looked for at all.
pub const FILENAME_MAX: usize = 256;

/// The paths tried for `name`, in order: nothing for a name of
/// `FILENAME_MAX` bytes or more, the name itself when it holds a slash,
/// else the name in each entry of the search path.
pub open spec fn candidates(path_env: Seq<char>, name: Seq<char>, name_bytes: nat) -> Seq<Seq<char>> {
    if name_bytes >= FILENAME_MAX {
        Seq::empty()
    } else if name.contains('/') {
        seq![name]
    } else {
        split_fields(path_env, PATH_SEP).map_values(|d: Seq<char>| candidate(d, name))
    }
}

fn make_candidate(dir: &str, name: &str) -> (c: String)
    ensures
        c@ == candidate(dir@, name@),
{
    let mut c = if dir.unicode_len() == 0 { ".".to_owned() } else { dir.to_owned() };
    c.append("/");
    c.append(name);
    c
}

fn contains_slash(name: &str) -> (r: bool)
    ensures
        r == name@.contains('/'),
{
    let n = name.unicode_len();
    let mut i: usize = 0;
    while i < n
        invariant
            i <= n,
            n == name@.len(),
            forall|k: int| 0 <= k < i ==> name@[k] != '/',
        decreases n - i,
    {
        if name.get_char(i) == '/' {
            assert(name@[i as int] == '/');
            return true;
        }
        i = i + 1;
    }
    false
}

/// The paths tried for `name`; see `candidates`.
pub fn search_candidates(path_env: &str, name: &str) -> (r: Vec<String>)
    ensures
        r@.len() == candidates(path_env@, name@, name.spec_bytes().len()).len(),
        forall|k: int| 0 <= k < r@.len() ==> #[trigger] r@[k]@ == candidates(path_env@, name@, name.spec_bytes().len())[k],
{
    let mut r: Vec<String> = Vec::new();
    if name.as_bytes().len() >= FILENAME_MAX {
        return r;
    }
    if contains_slash(name) {
        r.push(name.to_owned());
        return r;
    }
    let ghost s = path_env@;
    let ghost all = split_fields(s, PATH_SEP);
    let n = path_env.unicode_len();
    let mut j: usize = 0;
    let mut i: usize = 0;
    let ghost mut done: Seq<Seq<char>> = Seq::empty();
    assert(s.skip(0) =~= s);
    assert(done + all =~= all);
    while i < n
        invariant
            j <= i <= n,
            n == s.len(),
            s == path_env@,
            all == split_fields(s, PATH_SEP),
            all == done + split_fields(s.skip(j as int), PATH_SEP),
            forall|k: int| j <= k < i ==> s[k] != PATH_SEP,
            r@.len() == done.len(),
            forall|k: int| 0 <= k < r@.len() ==> #[trigger] r@[k]@ == candidate(done[k], name@),
        decreases n - i,
    {
        if path_env.get_char(i) == PATH_SEP {
            let field = path_env.substring_char(j, i);
            proof {
                let t = s.skip(j as int);
                assert forall|k: int| 0 <= k < i - j implies t[k] != PATH_SEP by {
                    assert(t[k] == s[j + k]);
                }
                lemma_split_fields_at(t, PATH_SEP, i - j);
                assert(t.take(i - j) =~= field@);
                assert(t.skip(i - j + 1) =~= s.skip(i + 1));
                done = done.push(field@);
                assert(all =~= done + split_fields(s.skip(i + 1), PATH_SEP));
            }
            r.push(make_candidate(field, name));
            j = i + 1;
        }
        i = i + 1;
    }
    let field = path_env.substring_char(j, n);
    proof {
        let t = s.skip(j as int);
        assert(t =~= field@);
        lemma_split_fields_none(t, PATH_SEP);
        done = done.push(field@);
        assert(all =~= done);
    }
    r.push(make_candidate(field, name));
    r
}

/// Whether a file may be run by the user: `access(2)` grants execution and it
/// is a regular file, and for the superuser, to whom `access(2)` grants
/// everything, some execute bit is set in its mode.
pub open spec fn runnable(access_ok: bool, is_file: bool, uid: u32, mode: u32) -> bool {
    access_ok && is_file && (uid != 0 || mode & 0o111 != 0)
}

/// Whether a file that was looked at may be run by the user; see `runnable`.
pub fn is_runnable(access_ok: bool, is_file: bool, uid: u32, mode: u32) -> (r: bool)
    ensures
        r == runnable(access_ok, is_file, uid, mode),
{
    access_ok && is_file && (uid != 0 || mode & 0o111 != 0)
}

/// The search for one command along the search path: it offers the
/// candidates in order and, unless every match is wanted, stops at the first
/// one that is there.
pub struct PathSearch {
    candidates: Vec<String>,
    allpaths: bool,
    progress: Progress,
}

/// How far a search has got.
struct Progress {
    next: usize,
    found: bool,
    results: Ghost<Seq<bool>>,
}

impl PathSearch {
    #[verifier::type_invariant]
    spec fn inv(self) -> bool {
        &&& self.progress.next == self.progress.results@.len()
        &&& self.progress.next <= self.candidates@.len()
        &&& self.progress.found == self.progress.results@.contains(true)
    }

    /// The paths to try, in order.
    pub closed spec fn paths(self) -> Seq<Seq<char>> {
        self.candidates@.map_values(|c: String| c@)
    }

    /// Whether each path tried so far was there.
    pub closed spec fn results(self) -> Seq<bool> {
        self.progress.results@
    }

    /// Whether every match is wanted.
    pub closed spec fn allpaths(self) -> bool {
        self.allpaths
    }

    /// The search is over: every path was tried, or one was there and only
    /// the first match is wanted.
    pub open spec fn finished(self) -> bool {
        ||| self.results().len() >= self.paths().len()
        ||| (!self.allpaths() && self.results().contains(true))
    }

    /// A search for `name` along `path_env`.
    pub fn new(path_env: &str, name: &str, allpaths: bool) -> (s: PathSearch)
        ensures
            s.paths() == candidates(path_env@, name@, name.spec_bytes().len()),
            s.results() == Seq::<bool>::empty(),
            s.allpaths() == allpaths,
    {
        let paths = search_candidates(path_env, name);
        let s = PathSearch {
            candidates: paths,
            allpaths,
            progress: Progress { next: 0, found: false, results: Ghost(Seq::empty()) },
        };
        assert(s.paths() =~= candidates(path_env@, name@, name.spec_bytes().len()));
        s
    }

    /// The next path to try, or nothing once the search is over.
    pub fn next_path(&self) -> (r: Option<&String>)
        ensures
            r is None <==> self.finished(),
            r matches Some(c) ==> c@ == self.paths()[self.results().len() as int],
    {
        proof {
            use_type_invariant(self);
        }
        if self.progress.next >= self.candidates.len() || (!self.allpaths && self.progress.found) {
            None
        } else {
            Some(&self.candidates[self.progress.next])
        }
    }

    /// Records whether the path just offered was there.
    pub fn record(&mut self, there: bool)
        requires
            !old(self).finished(),
        ensures
            final(self).results() == old(self).results().push(there),
            final(self).paths() == old(self).paths(),
            final(self).allpaths() == old(self).allpaths(),
    {
        proof {
            use_type_invariant(&*self);
        }
        let count = self.candidates.len();
        let ghost old_results = self.progress.results@;
        let ghost new_results = old_results.push(there);
        proof {
            assert(self.paths().len() == self.candidates@.len());
            assert(!old(self).finished());
            assert(old(self).results().len() < old(self).paths().len());
            assert(self.progress.next < count);
            if there {
                assert(new_results[new_results.len() - 1] == true);
            }
            if new_results.contains(true) && !there {
                let k = choose|k: int| 0 <= k < new_results.len() && new_results[k] == true;
                assert(old_results[k] == true);
            }
            if old_results.contains(true) {
                let k = choose|k: int| 0 <= k < old_results.len() && old_results[k] == true;
                assert(new_results[k] == true);
            }
        }
        self.progress = Progress {
            next: self.progress.next + 1,
            found: self.progress.found || there,
            results: Ghost(new_results),
        };
    }

    /// Whether some path tried was there.
    pub fn found(&self) -> (r: bool)
        ensures
            r == self.results().contains(true),
    {
        proof {
            use_type_invariant(self);
        }
        self.progress.found
    }
}

/// For the superuser, a regular file that `access(2)` grants is runnable
/// exactly when one of the execute bits for owner, group or others is set in
/// its mode; for anyone else, exactly when `access(2)` grants it and it is a
/// regular file.
pub proof fn lemma_runnable_execute_bits(access_ok: bool, is_file: bool, uid: u32, mode: u32)
    ensures
        uid == 0 ==> (runnable(access_ok, is_file, uid, mode)
            <==> access_ok && is_file && (mode & 0o100 != 0 || mode & 0o010 != 0 || mode & 0o001 != 0)),
        uid != 0 ==> (runnable(access_ok, is_file, uid, mode) <==> access_ok && is_file),
{
    assert((mode & 0o111 != 0) == (mode & 0o100 != 0 || mode & 0o010 != 0 || mode & 0o001 != 0)) by (bit_vector);
}

} // verus!
